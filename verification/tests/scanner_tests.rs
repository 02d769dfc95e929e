use polyglot_code_scanner::code_line_data::{CodeLineData, CodeLines};
use polyglot_code_scanner::coupling::{
    common_roots, relationship_distance, ActivityBurst, BucketingConfig, CouplingBuckets,
    CouplingConfig, FileChangeTimestamps, PathVec,
};
use polyglot_code_scanner::flare::FlareTreeNode;
use polyglot_code_scanner::git::{GitActivity, GitData, GitHistories, GitNodeData};
use polyglot_code_scanner::git_file_future::{FileNameChange, GitFileFutureRegistry};
use polyglot_code_scanner::git_file_history::{FileHistoryEntryBuilder, GitFileHistory};
use polyglot_code_scanner::git_logger::{find_coauthors, CommitChange, FileChange, GitLogEntry, User};
use polyglot_code_scanner::git_user_dictionary::GitUserDictionary;
use polyglot_code_scanner::polyglot_data::PolyglotData;
use polyglot_code_scanner::FeatureFlags;

#[test]
fn can_process_tabs_and_spaces() {
    let data = CodeLineData::new(" \t \t foo".as_bytes());
    assert_eq!(
        data,
        CodeLineData {
            spaces: 3,
            tabs: 2,
            text: 3
        }
    );
}

#[test]
fn can_process_unicode() {
    let data = CodeLineData::new("①②③④⑤⑥⑦⑧⑨⑩".as_bytes());
    assert_eq!(
        data,
        CodeLineData {
            spaces: 0,
            tabs: 0,
            text: 10
        }
    );
}

#[test]
fn code_lines_split_on_newlines() {
    let lines = CodeLines::from_bytes("a\n  b\n".as_bytes());
    assert_eq!(lines.lines.len(), 3);
    assert_eq!(lines.lines[1].spaces, 2);
    assert_eq!(lines.lines[1].text, 1);
    assert_eq!(lines.lines[2].text, 0);
}

#[test]
fn users_receive_sequential_ids() {
    let mut dict = GitUserDictionary::new();

    let jane = User::new(Some("Jane"), Some("JaneDoe@gmail.com"));
    let user0 = dict.register(&jane);
    assert_eq!(user0, 0);
    assert_eq!(dict.user_by_id(user0), jane);

    let user1 = dict.register(&User::new(Some("Jane"), None));
    assert_eq!(user1, 1);
    let user0again = dict.register(&User::new(Some("Jane"), Some("JaneDoe@gmail.com")));
    assert_eq!(user0again, 0);
}

#[test]
fn user_checks_are_case_insensitive_and_return_first_seen_user() {
    let mut dict = GitUserDictionary::new();

    let jane = User::new(Some("Jane"), Some("JaneDoe@gmail.com"));
    let lower_jane = User::new(Some("jane"), Some("janeDoe@gmail.com"));
    let user0 = dict.register(&jane);
    assert_eq!(user0, 0);
    // there is only one user!
    assert_eq!(dict.user_count(), 1);

    let user1 = dict.register(&lower_jane);
    assert_eq!(user1, 0);
    assert_eq!(dict.user_by_id(0), jane)
}

fn s(text: &str) -> String {
    text.to_string()
}

#[test]
fn trivial_repo_returns_original_name() {
    let mut registry = GitFileFutureRegistry::new();
    let my_id = s("01");
    registry.register(&my_id, &vec![], &vec![]);
    assert_eq!(
        registry.final_name(&my_id, &s("foo.txt")),
        Some(s("foo.txt"))
    );
}

#[test]
fn simple_rename_returns_old_name() {
    let mut registry = GitFileFutureRegistry::new();
    let my_id = s("01");
    registry.register(
        &my_id,
        &vec![],
        &vec![(s("foo.txt"), FileNameChange::Renamed(s("bar.txt")))],
    );
    assert_eq!(
        registry.final_name(&my_id, &s("foo.txt")),
        Some(s("bar.txt"))
    );
}

#[test]
fn renames_and_deletes_applied_across_history() {
    let mut registry = GitFileFutureRegistry::new();
    let id_1 = s("01");
    let id_2 = s("02");
    let id_4 = s("04");
    let id_5 = s("05");
    let id_6 = s("06");

    registry.register(
        &id_6,
        &vec![id_4.clone(), id_5.clone()],
        &vec![(s("c"), FileNameChange::Renamed(s("afinal")))],
    );
    registry.register(
        &id_4,
        &vec![id_2.clone()],
        &vec![(s("b"), FileNameChange::Renamed(s("c")))],
    );
    registry.register(
        &id_5,
        &vec![id_2.clone()],
        &vec![(s("b"), FileNameChange::Renamed(s("d")))],
    );
    registry.register(
        &id_2,
        &vec![id_1.clone()],
        &vec![
            (s("a"), FileNameChange::Renamed(s("b"))),
            (s("z"), FileNameChange::Deleted()),
        ],
    );
    registry.register(&id_1, &vec![], &vec![]);

    // original a is afinal; original z is gone
    assert_eq!(registry.final_name(&id_1, &s("a")), Some(s("afinal")));
    assert_eq!(registry.final_name(&id_1, &s("z")), None);
    // after node 2 we know nothing of a any more, only b
    assert_eq!(registry.final_name(&id_2, &s("b")), Some(s("afinal")));
}

#[test]
fn authorless_message_has_no_coauthors() {
    assert_eq!(find_coauthors("do be do be do"), Vec::<User>::new());
}

#[test]
fn can_get_coauthors_from_message() {
    let message = "This is a commit message
        not valid: Co-authored-by: fred jones
        Co-authored-by: valid user <valid@thing.com>
        Co-authored-by: <be.lenient@any-domain.com>
        Co-authored-by: bad@user <this isn't really trying to be clever>
        ignore random lines
        Co-authored-by: if there's no at it's a name
        Co-authored-by: if there's an @ it's email@thing.com
        ignore trailing lines
        ";

    let expected = vec![
        User::new(Some("valid user"), Some("valid@thing.com")),
        User::new(None, Some("be.lenient@any-domain.com")),
        User::new(
            Some("bad@user"),
            Some("this isn't really trying to be clever"),
        ),
        User::new(Some("if there's no at it's a name"), None),
        User::new(None, Some("if there's an @ it's email@thing.com")),
    ];

    assert_eq!(find_coauthors(message), expected);
}

#[test]
fn coauthor_lines_follow_the_documented_shapes() {
    let message = "Summary line
Co-authored-by: Jane <j@x>
Co-authored-by: <k@y>
Co-authored-by: no-email-name
Co-authored-by: bare@mail.com";
    let expected = vec![
        User::new(Some("Jane"), Some("j@x")),
        User::new(None, Some("k@y")),
        User::new(Some("no-email-name"), None),
        User::new(None, Some("bare@mail.com")),
    ];
    assert_eq!(find_coauthors(message), expected);
}

fn entry(email: &str, time: u64, id: &str) -> polyglot_code_scanner::git_file_history::FileHistoryEntry {
    FileHistoryEntryBuilder::test_default()
        .emails(email)
        .times(time)
        .id(id)
        .build()
        .unwrap()
}

#[test]
fn gets_basic_stats_from_git_events() {
    let one_day_in_secs: u64 = 60 * 60 * 24;
    let first_day = one_day_in_secs;

    let events = vec![
        entry("jo@smith.com", first_day, "1111"),
        FileHistoryEntryBuilder::test_default()
            .emails("x@smith.com")
            .times(first_day + 3 * one_day_in_secs)
            .author(User::new(Some("Why"), Some("y@smith.com")))
            .id("2222")
            .build()
            .unwrap(),
    ];
    let mut dictionary = GitUserDictionary::new();

    let today = first_day + 5 * one_day_in_secs;

    let stats = GitHistories::stats_from_history(&mut dictionary, today, &events).unwrap();

    assert_eq!(stats.last_update, first_day + 3 * one_day_in_secs);
    assert_eq!(stats.age_in_days, 2);
    assert_eq!(stats.creation_date, Some(86400));
    assert_eq!(stats.user_count, 3);
    assert_eq!(stats.users, vec![0, 1, 2]);

    assert_eq!(dictionary.user_count(), 3);
    let user_jo = User::new(None, Some("jo@smith.com"));
    let user_x = User::new(None, Some("x@smith.com"));
    let user_y = User::new(Some("Why"), Some("y@smith.com"));
    assert_eq!(dictionary.user_id(&user_jo), Some(0));
    assert_eq!(dictionary.user_id(&user_x), Some(1));
    assert_eq!(dictionary.user_id(&user_y), Some(2));
}

#[test]
fn gets_detailed_stats_from_git_events() {
    let one_day_in_secs: u64 = 60 * 60 * 24;
    let first_day = one_day_in_secs;

    let events = vec![
        entry("jo@smith.com", first_day, "1111"),
        FileHistoryEntryBuilder::test_default()
            .emails("jo@smith.com")
            .times(first_day)
            .author(User::new(Some("Why"), Some("y@smith.com")))
            .id("1111")
            .build()
            .unwrap(),
        FileHistoryEntryBuilder::test_default()
            .emails("x@smith.com")
            .times(first_day + 3 * one_day_in_secs)
            .author(User::new(Some("Why"), Some("y@smith.com")))
            .id("2222")
            .build()
            .unwrap(),
    ];

    let mut dictionary = GitUserDictionary::new();
    let today = first_day + 5 * one_day_in_secs;

    let stats = GitHistories::stats_from_history(&mut dictionary, today, &events).unwrap();

    assert_eq!(stats.last_update, first_day + 3 * one_day_in_secs);
    assert_eq!(stats.age_in_days, 2);
    assert_eq!(stats.creation_date, Some(86400));
    assert_eq!(stats.user_count, 3);
    assert_eq!(stats.users, vec![0, 1, 2]);

    let details = &stats.details;
    assert_eq!(details.len(), 3);
    assert_eq!(details[0].commit_day, 86400);
    assert_eq!(details[0].users, vec![0]);
    assert_eq!(details[0].commits, 1);
    assert_eq!(details[0].lines_added, 0);
    assert_eq!(details[0].lines_deleted, 0);
    assert_eq!(details[1].commit_day, 86400);
    assert_eq!(details[1].users, vec![0, 1]);
    assert_eq!(details[1].commits, 1);
    assert_eq!(details[2].commit_day, 345_600);
    assert_eq!(details[2].users, vec![1, 2]);
    assert_eq!(details[2].commits, 1);

    let activity = &stats.activity;
    assert_eq!(activity.len(), 3);
    assert_eq!(activity[0].author_time, 86400);
    assert_eq!(activity[0].commit_time, 86400);
    assert_eq!(activity[0].users, vec![0]);
    assert_eq!(activity[0].change, CommitChange::Add);
    assert_eq!(activity[1].users, vec![0, 1]);
    assert_eq!(activity[2].author_time, 345_600);
    assert_eq!(activity[2].users, vec![1, 2]);

    assert_eq!(dictionary.user_count(), 3);
    let user_jo = User::new(None, Some("jo@smith.com"));
    let user_x = User::new(None, Some("x@smith.com"));
    let user_y = User::new(Some("Why"), Some("y@smith.com"));
    assert_eq!(dictionary.user_id(&user_jo), Some(0));
    assert_eq!(dictionary.user_id(&user_y), Some(1));
    assert_eq!(dictionary.user_id(&user_x), Some(2));
}

const DAY_SIZE: u64 = 24 * 60 * 60;
const TEST_START: u64 = (2020 - 1970) * 365 * DAY_SIZE;
const DAY1: u64 = TEST_START + DAY_SIZE;
const DAY2: u64 = TEST_START + 2 * DAY_SIZE;
const DAY3: u64 = TEST_START + 3 * DAY_SIZE;
const DAY4: u64 = TEST_START + 4 * DAY_SIZE;
const DAY21: u64 = TEST_START + 21 * DAY_SIZE;
const DAY22: u64 = TEST_START + 22 * DAY_SIZE;
const DAY23: u64 = TEST_START + 23 * DAY_SIZE;
const DAY29: u64 = TEST_START + 29 * DAY_SIZE;

fn simple_coupling_config() -> CouplingConfig {
    CouplingConfig::new(20, 1, 1, 1000, 60 * 60, 60 * 60, 0, None)
}

#[test]
fn single_event_creates_a_single_activity_burst() {
    let events = vec![DAY1];
    let results = ActivityBurst::from_events(&events, 60);
    assert_eq!(results.len(), 1);
    let res1 = results.first().unwrap();
    assert_eq!(res1.start, DAY1);
    assert_eq!(res1.end, DAY1);
    assert_eq!(res1.event_count, 1);
}

#[test]
fn empty_events_creates_no_activity_burst() {
    let events: Vec<u64> = Vec::new();
    let results = ActivityBurst::from_events(&events, 60);
    assert_eq!(results.len(), 0);
}

#[test]
fn events_with_no_gap_return_a_single_activity_burst() {
    let events = vec![DAY1, DAY1 + 10, DAY1 + 20];
    let results = ActivityBurst::from_events(&events, 60);
    assert_eq!(results.len(), 1);
    let res1 = results.first().unwrap();
    assert_eq!(res1.start, DAY1);
    assert_eq!(res1.end, DAY1 + 20);
    assert_eq!(res1.event_count, 3);
}

#[test]
fn events_with_gaps_return_multiple_activity_bursts() {
    let events: Vec<u64> = vec![
        DAY1,
        DAY1 + 10,
        DAY1 + 20,
        DAY1 + 80,
        DAY1 + 90,
        DAY2,
        DAY3,
        DAY3 + 20,
    ];

    let results = ActivityBurst::from_events(&events, 59);
    assert_eq!(
        results,
        vec![
            ActivityBurst {
                start: DAY1,
                end: DAY1 + 20,
                event_count: 3
            },
            ActivityBurst {
                start: DAY1 + 80,
                end: DAY1 + 90,
                event_count: 2
            },
            ActivityBurst {
                start: DAY2,
                end: DAY2,
                event_count: 1
            },
            ActivityBurst {
                start: DAY3,
                end: DAY3 + 20,
                event_count: 2
            },
        ]
    );
}

#[test]
fn burst_detection_matches_the_documented_windows() {
    let t = DAY1;
    let events: Vec<u64> = vec![
        t,
        t + 10,
        t + 20,
        t + 80,
        t + 90,
        t + 86400,
        t + 3 * 86400,
        t + 3 * 86400 + 20,
    ];
    let results = ActivityBurst::from_events(&events, 59);
    assert_eq!(
        results,
        vec![
            ActivityBurst {
                start: t,
                end: t + 20,
                event_count: 3
            },
            ActivityBurst {
                start: t + 80,
                end: t + 90,
                event_count: 2
            },
            ActivityBurst {
                start: t + 86400,
                end: t + 86400,
                event_count: 1
            },
            ActivityBurst {
                start: t + 3 * 86400,
                end: t + 3 * 86400 + 20,
                event_count: 2
            },
        ]
    );
}

#[test]
fn can_get_bucket_sizes_from_config() {
    let config = simple_coupling_config();
    let (bucket_count, first_bucket_start) = config.buckets_for(DAY1, DAY22);
    assert_eq!(bucket_count, 2);

    // first day is in first bucket
    assert!(DAY1 > first_bucket_start && DAY1 < (first_bucket_start + config.bucket_size()));
    // last day is the last second of the last bucket
    assert_eq!(
        DAY22,
        first_bucket_start + bucket_count * config.bucket_size() - 1
    );
}

#[test]
fn can_find_bucket_for_timestamp() {
    let coupling_config = simple_coupling_config();
    let config = BucketingConfig::new(coupling_config, DAY1, DAY29).unwrap();
    assert_eq!(config.first_bucket_start, DAY29 - (40 * DAY_SIZE) + 1);
    assert_eq!(config.bucket_count, 2);
    assert_eq!(config.bucket_for(DAY1), Some(0));
    assert_eq!(config.bucket_for(DAY29), Some(1));
    assert_eq!(config.bucket_for(DAY29 + 1), None);
    assert_eq!(config.bucket_for(config.first_bucket_start - 1), None);
}

fn pv(name: &str) -> PathVec {
    PathVec::from_path(name)
}

fn make_test_timestamps(data: Vec<(u64, Vec<&str>)>) -> FileChangeTimestamps {
    let mut stats = FileChangeTimestamps {
        file_changes: Vec::new(),
        timestamps: Vec::new(),
    };
    for (time, names) in &data {
        let mut indices = Vec::new();
        for name in names {
            let idx = match stats
                .file_changes
                .iter()
                .position(|(p, _)| p.to_path_string() == *name)
            {
                Some(i) => i,
                None => {
                    stats.file_changes.push((pv(name), Vec::new()));
                    stats.file_changes.len() - 1
                }
            };
            stats.file_changes[idx].1.push(*time);
            indices.push(idx);
        }
        stats.timestamps.push((*time, indices));
    }
    for (_, times) in stats.file_changes.iter_mut() {
        times.sort_unstable();
        times.dedup();
    }
    stats.timestamps.sort_by_key(|(t, _)| *t);
    stats
}

fn coupled_count(
    bucket: &polyglot_code_scanner::coupling::CouplingBucket,
    from: &str,
    to: &str,
) -> Option<u64> {
    let from_path = pv(from);
    let stats = bucket
        .couplings
        .iter()
        .find(|c| c.name.to_path_string() == from_path.to_path_string())?;
    stats
        .coupled_files
        .iter()
        .find(|(p, _)| p.to_path_string() == to)
        .map(|(_, n)| *n)
}

#[test]
fn single_file_change_produces_trivial_coupling_data() {
    // 'foo' changes with 'bar' only
    let timestamps = make_test_timestamps(vec![(DAY1, vec!["foo", "bar"])]);
    let config = simple_coupling_config();
    let bucketing_config = BucketingConfig::new(config, DAY1, DAY1).unwrap();

    let coupling_buckets = CouplingBuckets::new(config, &timestamps, bucketing_config);

    assert_eq!(coupling_buckets.buckets.len(), 1);
    let first_bucket = coupling_buckets.buckets.first().unwrap();
    // buckets are right-aligned on the date range, so the first day is the
    // last timestamp in the bucket
    assert_eq!(first_bucket.bucket_start, DAY1 - (20 * DAY_SIZE) + 1);
    assert_eq!(first_bucket.bucket_size, 20 * DAY_SIZE);

    assert_eq!(first_bucket.couplings.len(), 2);
    assert_eq!(coupled_count(first_bucket, "foo", "bar"), Some(1));
    assert_eq!(coupled_count(first_bucket, "bar", "foo"), Some(1));
}

#[test]
fn can_build_coupling_data_from_timestamps() {
    let timestamps = make_test_timestamps(vec![
        (DAY1, vec!["foo", "bar"]),
        (DAY1 + 60, vec!["foo"]),
        (DAY1 + 90, vec!["baz"]),
        (DAY21, vec!["foo", "baz", "bat"]),
        (DAY22, vec!["foo"]),
        (DAY22 + 200, vec!["foo"]),
        (DAY22 + 400, vec!["foo"]),
        (DAY22 + 500, vec!["bat"]),
    ]);
    let config = simple_coupling_config();
    let bucketing_config = BucketingConfig::new(config, DAY1, DAY22 + 500).unwrap();

    let coupling_buckets = CouplingBuckets::new(config, &timestamps, bucketing_config);

    // there should be 2 buckets (each is 20 days long)
    assert_eq!(coupling_buckets.buckets.len(), 2);
    let first_bucket = &coupling_buckets.buckets[0];
    let second_bucket = &coupling_buckets.buckets[1];

    let foo_stats = first_bucket
        .couplings
        .iter()
        .find(|c| c.name.to_path_string() == "foo")
        .unwrap();
    assert_eq!(foo_stats.activity_bursts, 1);
    assert_eq!(coupled_count(first_bucket, "foo", "bar"), Some(1));
    assert_eq!(coupled_count(first_bucket, "foo", "baz"), Some(1));

    let foo_stats_b2 = second_bucket
        .couplings
        .iter()
        .find(|c| c.name.to_path_string() == "foo")
        .unwrap();
    assert_eq!(foo_stats_b2.activity_bursts, 2);
    assert_eq!(coupled_count(second_bucket, "foo", "baz"), Some(1));
    assert_eq!(coupled_count(second_bucket, "foo", "bat"), Some(2));
}

#[test]
fn coupling_is_filtered_and_calculated_as_ratio_of_commits_to_others() {
    // filter out files with 1 burst per bucket, and coupling below 50%
    let config = CouplingConfig::new(20, 2, 1, 2, 60 * 60, 60 * 60, 0, None);
    // foo -> bar is in as it's 100%
    // foo -> baz is in just as it's 50%
    // foo -> bat is out as it's 25%
    // bat -> foo is out as there is only one bat
    // baz -> foo is in as there are two baz's
    let timestamps = make_test_timestamps(vec![
        (DAY1, vec!["foo", "bar"]),
        (DAY2, vec!["foo", "bar"]),
        (DAY3, vec!["foo", "bar", "baz"]),
        (DAY4, vec!["foo", "bar", "baz", "bat"]),
    ]);
    let bucketing_config = BucketingConfig::new(config, DAY1, DAY29).unwrap();

    let coupling_buckets = CouplingBuckets::new(config, &timestamps, bucketing_config);

    let foo_coupling = coupling_buckets.file_coupling_data(config, &pv("foo"));
    assert_eq!(foo_coupling.buckets.len(), 1);
    let foo_bucket = &foo_coupling.buckets[0];
    assert_eq!(foo_bucket.activity_bursts, 4);
    assert_eq!(foo_bucket.coupled_files.len(), 2);
    assert_eq!(foo_bucket.coupled_files[0].0.to_path_string(), "bar");
    assert_eq!(foo_bucket.coupled_files[0].1, 4);
    assert_eq!(foo_bucket.coupled_files[1].0.to_path_string(), "baz");
    assert_eq!(foo_bucket.coupled_files[1].1, 2);

    let bat_coupling = coupling_buckets.file_coupling_data(config, &pv("bat"));
    assert_eq!(bat_coupling.buckets.len(), 0);

    let baz_coupling = coupling_buckets.file_coupling_data(config, &pv("baz"));
    assert_eq!(baz_coupling.buckets.len(), 1);
    let baz_bucket = &baz_coupling.buckets[0];
    assert_eq!(baz_bucket.activity_bursts, 2);
    assert_eq!(baz_bucket.coupled_files.len(), 3);
    assert_eq!(baz_bucket.coupled_files[0].0.to_path_string(), "bar");
    assert_eq!(baz_bucket.coupled_files[0].1, 2);
    assert_eq!(baz_bucket.coupled_files[1].0.to_path_string(), "bat");
    assert_eq!(baz_bucket.coupled_files[1].1, 1);
    assert_eq!(baz_bucket.coupled_files[2].0.to_path_string(), "foo");
    assert_eq!(baz_bucket.coupled_files[2].1, 2);
}

#[test]
fn coupling_is_filtered_by_file_distance() {
    let config = CouplingConfig::new(20, 1, 1, 100, 60 * 60, 60 * 60, 2, Some(1));
    // siblings are not included; 'foo/bar/*' won't match anything else under
    // 'foo/bar' as that's two common roots
    let timestamps = make_test_timestamps(vec![
        (DAY1, vec!["foo/bar.c", "foo/baz.c"]),                 // siblings
        (DAY2, vec!["foo/bat/bar.c", "foo/baz/bar.c"]),         // cousins
        (DAY3, vec!["foo/bar/baz/bat.c", "foo/bar/bat/bum.c"]), // two common roots
        (DAY4, vec!["foo/bum.c", "bar/foo.c"]),                 // unrelated
    ]);
    let bucketing_config = BucketingConfig::new(config, DAY1, DAY29).unwrap();

    let coupling_buckets = CouplingBuckets::new(config, &timestamps, bucketing_config);

    let day1_coupling = coupling_buckets.file_coupling_data(config, &pv("foo/bar.c"));
    assert_eq!(day1_coupling.buckets.len(), 1);
    assert_eq!(day1_coupling.buckets[0].coupled_files.len(), 0);

    let day2_coupling = coupling_buckets.file_coupling_data(config, &pv("foo/bat/bar.c"));
    assert_eq!(day2_coupling.buckets.len(), 1);
    assert_eq!(day2_coupling.buckets[0].coupled_files.len(), 1);
    assert_eq!(
        day2_coupling.buckets[0].coupled_files[0].0.to_path_string(),
        "foo/baz/bar.c"
    );
    assert_eq!(day2_coupling.buckets[0].coupled_files[0].1, 1);

    let day3_coupling = coupling_buckets.file_coupling_data(config, &pv("foo/bar/baz/bat.c"));
    assert_eq!(day3_coupling.buckets.len(), 1);
    assert_eq!(day3_coupling.buckets[0].coupled_files.len(), 0);

    let day4_coupling = coupling_buckets.file_coupling_data(config, &pv("foo/bum.c"));
    assert_eq!(day4_coupling.buckets.len(), 1);
    assert_eq!(day4_coupling.buckets[0].coupled_files.len(), 1);
    assert_eq!(
        day4_coupling.buckets[0].coupled_files[0].0.to_path_string(),
        "bar/foo.c"
    );
}

#[test]
fn common_roots_calculates_common_parts_of_paths() {
    assert_eq!(common_roots(&pv("foo"), &pv("bar")), 0);
    assert_eq!(common_roots(&pv("foo"), &pv("foo")), 1);
    assert_eq!(common_roots(&pv("foo"), &pv("foo/bar")), 1);
    assert_eq!(common_roots(&pv("foo/baz"), &pv("foo/bar")), 1);
    assert_eq!(common_roots(&pv("foo/baz"), &pv("foo/baz")), 2);
    assert_eq!(common_roots(&pv("foo/baz/a"), &pv("foo/baz/b")), 2);
}

#[test]
fn unrelated_paths_have_no_relationship() {
    assert_eq!(relationship_distance(&pv("foo"), &pv("bar")), None);
    assert_eq!(relationship_distance(&pv("foo/baz"), &pv("bar/baz")), None);
}

#[test]
fn can_count_relationship_distance_for_simple_cases() {
    assert_eq!(relationship_distance(&pv("foo/bar"), &pv("foo/bar")), Some(0));
    assert_eq!(relationship_distance(&pv("foo/bar"), &pv("foo/baz")), Some(1));
    assert_eq!(
        relationship_distance(&pv("foo/bar/baz"), &pv("foo/baz/bat")),
        Some(2)
    );
}

#[test]
fn uncles_and_nieces_and_other_strange_relationships_work() {
    assert_eq!(
        relationship_distance(&pv("foo/bam"), &pv("foo/bar/baz")),
        Some(2)
    );
    assert_eq!(
        relationship_distance(&pv("foo/bar"), &pv("foo/bar/baz")),
        Some(1)
    );
    assert_eq!(
        relationship_distance(&pv("foo/bag"), &pv("foo/bar/bat/baz")),
        Some(3)
    );
}

#[test]
fn can_make_pathvec_from_paths() {
    let path_vec = PathVec::from_path("foo/bar/baz");
    assert_eq!(path_vec.to_path_string(), "foo/bar/baz");
}

#[test]
fn can_append_to_pathvecs() {
    let mut path_vec = PathVec::from_path("foo/bar");
    path_vec.push("baz");
    assert_eq!(path_vec.to_path_string(), "foo/bar/baz");
}

fn build_test_tree() -> FlareTreeNode {
    let mut root = FlareTreeNode::dir("root");
    root.append_child(FlareTreeNode::file("root_file_1.txt"));
    root.append_child(FlareTreeNode::file("root_file_2.txt"));
    let mut child1 = FlareTreeNode::dir("child1");
    child1.append_child(FlareTreeNode::file("child1_file_1.txt"));
    let mut grand_child = FlareTreeNode::dir("grandchild");
    grand_child.append_child(FlareTreeNode::file("grandchild_file.txt"));
    child1.append_child(grand_child);
    child1.append_child(FlareTreeNode::file("child1_file_2.txt"));
    let mut child2 = FlareTreeNode::dir("child2");
    child2.append_child(FlareTreeNode::file("child2_file.txt"));
    root.append_child(child1);
    root.append_child(child2);
    root
}

fn path_of(components: &[&str]) -> Vec<String> {
    components.iter().map(|c| c.to_string()).collect()
}

#[test]
fn can_get_elements_from_tree() {
    let tree = build_test_tree();
    let path = path_of(&["child1", "grandchild", "grandchild_file.txt"]);
    let grandchild = tree.get_in(&path);
    assert_eq!(
        grandchild.expect("Grandchild not found!").name(),
        "grandchild_file.txt"
    );
}

#[test]
fn can_get_top_level_element_from_tree() {
    let tree = build_test_tree();

    let child1 = tree.get_in(&path_of(&["child1"]));
    assert_eq!(child1.expect("child1 not found!").name(), "child1");

    let child2 = tree.get_in(&path_of(&["root_file_1.txt"]));
    assert_eq!(
        child2.expect("root_file_1 not found!").name(),
        "root_file_1.txt"
    );
}

#[test]
fn getting_missing_elements_returns_none() {
    let tree = build_test_tree();
    assert!(tree.get_in(&path_of(&["child1", "grandchild", "nonesuch"])).is_none());
    assert!(tree
        .get_in(&path_of(&[
            "child1",
            "grandchild",
            "grandchild_file.txt",
            "files_have_no_kids"
        ]))
        .is_none());
    assert!(tree.get_in(&path_of(&["no_file_at_root"])).is_none());
}

#[test]
fn can_build_data_tree() {
    let root = FlareTreeNode::dir("root");
    let tree = PolyglotData::new("test", Some("test-id"), root, FeatureFlags::default());

    assert_eq!(tree.name(), "test");
    assert_eq!(tree.id(), "test-id");
    assert_eq!(tree.version(), "1.0.2");
}

#[test]
fn data_without_id_has_uuid() {
    let root1 = FlareTreeNode::dir("root");
    let root2 = FlareTreeNode::dir("root");
    let tree1 = PolyglotData::new("test", None, root1, FeatureFlags::default());
    let tree2 = PolyglotData::new("test", None, root2, FeatureFlags::default());
    // really just asserting that fresh ids differ
    assert_ne!(tree1.id(), tree2.id());
    assert_eq!(tree1.id().len(), 36);
}

#[test]
fn history_attribution_groups_changes_under_final_names() {
    // commits are handed over newest first, as a log reader yields them
    fn change(file: &str, old_file: Option<&str>, kind: CommitChange) -> FileChange {
        FileChange {
            file: file.to_string(),
            old_file: old_file.map(|s| s.to_string()),
            change: kind,
            lines_added: 1,
            lines_deleted: 0,
        }
    }
    fn log_entry(id: &str, parents: &[&str], time: u64, changes: Vec<FileChange>) -> GitLogEntry {
        GitLogEntry {
            id: id.to_string(),
            summary: "work".to_string(),
            parents: parents.iter().map(|p| p.to_string()).collect(),
            committer: User::new(None, Some("a@b")),
            commit_time: time,
            author: User::new(None, Some("a@b")),
            author_time: time,
            co_authors: Vec::new(),
            file_changes: changes,
        }
    }

    let entries = vec![
        log_entry("07", &["06"], 700, vec![change("z", None, CommitChange::Add)]),
        log_entry(
            "06",
            &["04", "05"],
            600,
            vec![change("afinal", Some("c"), CommitChange::Rename)],
        ),
        log_entry("04", &["02"], 400, vec![change("c", Some("b"), CommitChange::Rename)]),
        log_entry("05", &["02"], 500, vec![change("d", Some("b"), CommitChange::Rename)]),
        log_entry(
            "02",
            &["01"],
            200,
            vec![
                change("b", Some("a"), CommitChange::Rename),
                change("z", None, CommitChange::Delete),
            ],
        ),
        log_entry("01", &[], 100, vec![
            change("a", None, CommitChange::Add),
            change("z", None, CommitChange::Add),
        ]),
    ];

    let history = GitFileHistory::from_entries("repo".to_string(), &entries);
    assert_eq!(history.last_commit(), 700);

    let afinal = history.history_for("repo/afinal").expect("afinal history");
    let ids: Vec<&str> = afinal.iter().map(|e| e.id.as_str()).collect();
    assert_eq!(ids, vec!["06", "04", "02", "01"]);

    let z = history.history_for("repo/z").expect("z history");
    let z_ids: Vec<&str> = z.iter().map(|e| e.id.as_str()).collect();
    assert_eq!(z_ids, vec!["07"]);

    assert!(history.history_for("repo/c").is_none());
    assert!(history.history_for("repo/b").is_none());
    assert!(history.history_for("repo/a").is_none());
    assert!(history.is_repo_for("repo/afinal"));
    assert!(!history.is_repo_for("elsewhere/afinal"));
}

#[test]
fn fake_git_data_keeps_its_activity() {
    let activity = vec![GitActivity {
        author_time: DAY1,
        commit_time: DAY1,
        users: vec![],
        change: CommitChange::Add,
        lines_added: 1,
        lines_deleted: 0,
    }];
    let data = GitData::fake_with_activity(activity);
    assert_eq!(data.activity.len(), 1);
    assert_eq!(data.last_update, 0);
    let node_data = GitNodeData::File { data };
    match node_data {
        GitNodeData::File { data } => assert_eq!(data.activity[0].commit_time, DAY1),
        _ => panic!("expected file data"),
    }
}

fn activity_at(timestamp: u64) -> GitActivity {
    GitActivity {
        author_time: timestamp,
        commit_time: timestamp,
        users: Vec::new(),
        change: CommitChange::Add,
        lines_added: 1,
        lines_deleted: 0,
    }
}

fn loc_with_code(code: usize) -> polyglot_code_scanner::loc::LanguageLocData {
    polyglot_code_scanner::loc::LanguageLocData {
        language: "Rust".to_string(),
        binary: false,
        blanks: 0,
        code,
        comments: 0,
        lines: code,
        bytes: 100,
    }
}

fn git_file_with_activity(timestamps: &[u64]) -> GitNodeData {
    let activity = timestamps.iter().map(|t| activity_at(*t)).collect();
    GitNodeData::File {
        data: GitData::fake_with_activity(activity),
    }
}

fn build_coupling_test_tree() -> FlareTreeNode {
    let mut root = FlareTreeNode::dir("root");
    let mut root_file_1 = FlareTreeNode::file("root_file_1.txt");
    root_file_1.indicators_mut().git = Some(git_file_with_activity(&[DAY1, DAY21]));
    root_file_1.indicators_mut().loc = Some(loc_with_code(12));
    root.append_child(root_file_1);
    root.append_child(FlareTreeNode::file("root_file_2.txt"));
    let mut child1 = FlareTreeNode::dir("child1");
    let mut child1_file1 = FlareTreeNode::file("child1_file_1.txt");
    child1_file1.indicators_mut().git = Some(git_file_with_activity(&[DAY21, DAY22]));
    child1_file1.indicators_mut().loc = Some(loc_with_code(122));
    child1.append_child(child1_file1);
    let mut child1_file2 = FlareTreeNode::file("binary_file.zip");
    child1_file2.indicators_mut().git = Some(git_file_with_activity(&[DAY21, DAY22, DAY23]));
    child1.append_child(child1_file2);
    root.append_child(child1);
    root
}

#[test]
fn can_convert_tree_to_daily_stats() {
    let tree = build_coupling_test_tree();
    let stats = FileChangeTimestamps::new(&tree);
    assert!(!stats.is_empty());

    let mut expected_timestamps: Vec<(u64, Vec<&str>)> = vec![
        (DAY1, vec!["root_file_1.txt"]),
        (DAY21, vec!["root_file_1.txt", "child1/child1_file_1.txt"]),
        (DAY22, vec!["child1/child1_file_1.txt"]),
    ];
    expected_timestamps.sort_by_key(|(t, _)| *t);
    assert_eq!(stats.timestamps.len(), expected_timestamps.len());
    for ((time, files), (expected_time, expected_files)) in
        stats.timestamps.iter().zip(expected_timestamps.iter())
    {
        assert_eq!(time, expected_time);
        let mut names: Vec<String> = files
            .iter()
            .map(|i| stats.file_changes[*i].0.to_path_string())
            .collect();
        names.sort();
        let mut expected_names: Vec<String> =
            expected_files.iter().map(|n| n.to_string()).collect();
        expected_names.sort();
        assert_eq!(names, expected_names);
    }

    let mut file_changes: Vec<(String, Vec<u64>)> = stats
        .file_changes
        .iter()
        .map(|(p, times)| (p.to_path_string(), times.clone()))
        .collect();
    file_changes.sort();
    assert_eq!(
        file_changes,
        vec![
            ("child1/child1_file_1.txt".to_string(), vec![DAY21, DAY22]),
            ("root_file_1.txt".to_string(), vec![DAY1, DAY21]),
        ]
    );
}

#[test]
fn can_get_daily_stats_early_late() {
    let tree = build_coupling_test_tree();
    let stats = FileChangeTimestamps::new(&tree);
    assert_eq!(stats.earliest(), Some(DAY1));
    assert_eq!(stats.latest(), Some(DAY22));
}
