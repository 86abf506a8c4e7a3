use winning_chances_core::Datapoint;
use winning_chances_core::GameResult;
use winning_chances_core::ScanError;
use winning_chances_core::WDLData;
use winning_chances_core::calculate;
use winning_chances_core::calculate_from_files;
use winning_chances_core::round_rating;
use winning_chances_core::timecontrol_qualifies;

fn record(tc: &str, white: u32, black: u32, result: &str) -> String {
    format!(
        "[TimeControl \"{}\"]\n[WhiteElo \"{}\"]\n[BlackElo \"{}\"]\n[Result \"{}\"]\n\n1. e4 e5 {}\n",
        tc, white, black, result, result
    )
}

fn scan(content: &str) -> WDLData {
    calculate(content.as_bytes()).expect("scan should succeed")
}

fn point(w: &WDLData, which: char, bucket: i64) -> Option<Datapoint> {
    match which {
        'w' => w.wins.get(bucket),
        'd' => w.draws.get(bucket),
        _ => w.losses.get(bucket),
    }
}

#[test]
pub fn test_round_rating() {
    assert_eq!(round_rating(1712), 1700);
    assert_eq!(round_rating(1713), 1725);
    assert_eq!(round_rating(848), 850);
    assert_eq!(round_rating(2093), 2100);
}

#[test]
fn round_rating_is_idempotent_on_samples() {
    for x in [0, 1, 12, 13, 848, 1712, 1713, 2093, 3500, -1712, -13] {
        let once = round_rating(x);
        assert_eq!(round_rating(once), once);
    }
}

#[test]
fn timecontrol_boundaries() {
    assert_eq!(timecontrol_qualifies(b"480+0"), Ok(true));
    assert_eq!(timecontrol_qualifies(b"419+0"), Ok(false));
    assert_eq!(timecontrol_qualifies(b"0+12"), Ok(true));
    assert_eq!(timecontrol_qualifies(b"600+5"), Ok(true));
    assert_eq!(timecontrol_qualifies(b"479+0"), Ok(false));
}

#[test]
fn timecontrol_malformed() {
    assert!(timecontrol_qualifies(b"480").is_err());
    assert!(timecontrol_qualifies(b"x+0").is_err());
    assert!(timecontrol_qualifies(b"480+").is_err());
    assert!(timecontrol_qualifies(b"+480").is_err());
    assert!(timecontrol_qualifies(b"").is_err());
}

#[test]
fn invert_swaps_win_and_loss_only() {
    assert_eq!(GameResult::Win.invert(), GameResult::Loss);
    assert_eq!(GameResult::Loss.invert(), GameResult::Win);
    assert_eq!(GameResult::Draw.invert(), GameResult::Draw);
    assert_eq!(GameResult::Unfinished.invert(), GameResult::Unfinished);
    assert_eq!(GameResult::Unknown.invert(), GameResult::Unknown);
}

#[test]
fn single_record_higher_rated_white_wins() {
    // 600+5 qualifies (600 + 200 = 800 >= 480); bucket = 1700 - 1600 = 100;
    // White is higher rated, so the lower-rated perspective is Loss.
    let w = scan(&record("600+5", 1700, 1600, "1-0"));
    assert_eq!(point(&w, 'l', 100), Some(Datapoint { value: 1, total: 1 }));
    assert_eq!(point(&w, 'w', 100), Some(Datapoint { value: 0, total: 1 }));
    assert_eq!(point(&w, 'd', 100), Some(Datapoint { value: 0, total: 1 }));
    assert_eq!(w.wins.len(), 1);
    assert_eq!(w.draws.len(), 1);
    assert_eq!(w.losses.len(), 1);
}

#[test]
fn unfinished_game_is_discarded() {
    let w = scan(&record("600+5", 1700, 1600, "*"));
    assert_eq!(w.wins.len(), 0);
    assert_eq!(w.draws.len(), 0);
    assert_eq!(w.losses.len(), 0);
}

#[test]
fn equal_ratings_are_discarded() {
    let w = scan(&record("600+5", 1800, 1800, "1-0"));
    assert_eq!(w.wins.len(), 0);
    assert_eq!(w.draws.len(), 0);
    assert_eq!(w.losses.len(), 0);
}

#[test]
fn non_qualifying_time_control_is_discarded() {
    let w = scan(&record("60+0", 1700, 1600, "1-0"));
    assert_eq!(w.wins.len(), 0);
}

#[test]
fn lower_rated_white_keeps_perspective() {
    // White 1600 is the lower-rated player and wins.
    let w = scan(&record("600+5", 1600, 1700, "1-0"));
    assert_eq!(point(&w, 'w', 100), Some(Datapoint { value: 1, total: 1 }));
    assert_eq!(point(&w, 'l', 100), Some(Datapoint { value: 0, total: 1 }));
}

#[test]
fn per_side_rounding_decides_the_bucket() {
    // 1712 rounds to 1700 and 1713 to 1725: bucket 25 even though the raw
    // difference is 1.
    let w = scan(&record("600+5", 1713, 1712, "1/2-1/2"));
    assert_eq!(point(&w, 'd', 25), Some(Datapoint { value: 1, total: 1 }));
}

#[test]
fn totals_agree_across_outcomes_after_scan() {
    let mut content = String::new();
    content.push_str(&record("600+5", 1700, 1600, "1-0"));
    content.push_str(&record("600+5", 1600, 1700, "1-0"));
    content.push_str(&record("600+5", 1705, 1600, "1/2-1/2"));
    content.push_str(&record("60+0", 1700, 1600, "0-1"));
    content.push_str(&record("600+5", 1900, 1600, "0-1"));
    let w = scan(&content);
    for bucket in [100, 300] {
        let wins = w.wins.get(bucket).unwrap();
        let draws = w.draws.get(bucket).unwrap();
        let losses = w.losses.get(bucket).unwrap();
        assert_eq!(wins.total, draws.total);
        assert_eq!(draws.total, losses.total);
        assert_eq!(wins.value + draws.value + losses.value, wins.total);
    }
    // bucket 100: two qualifying decisive games and one draw.
    assert_eq!(w.wins.get(100).unwrap().total, 3);
}

#[test]
fn skip_guard_counts_one_game_once() {
    // Several non-tag lines after one record classify the game only once.
    let content = "[TimeControl \"600+5\"]\n[WhiteElo \"1700\"]\n[BlackElo \"1600\"]\n\
                   [Result \"1-0\"]\n\n1. e4 e5\n2. Nf3 Nc6\n";
    let w = scan(content);
    assert_eq!(point(&w, 'l', 100), Some(Datapoint { value: 1, total: 1 }));
}

#[test]
fn unrecognized_tags_are_ignored() {
    let content = "[Event \"Casual game\"]\n[Site \"-\"]\n[TimeControl \"600+5\"]\n\
                   [WhiteElo \"1700\"]\n[BlackElo \"1600\"]\n[Result \"0-1\"]\n\n1. d4\n";
    let w = scan(content);
    assert_eq!(point(&w, 'w', 100), Some(Datapoint { value: 1, total: 1 }));
}

#[test]
fn crlf_lines_are_handled() {
    let content = "[TimeControl \"600+5\"]\r\n[WhiteElo \"1700\"]\r\n[BlackElo \"1600\"]\r\n\
                   [Result \"1-0\"]\r\n\r\n1. e4\r\n";
    let w = scan(content);
    assert_eq!(point(&w, 'l', 100), Some(Datapoint { value: 1, total: 1 }));
}

#[test]
fn empty_file_scans_to_empty_tallies() {
    let w = scan("");
    assert_eq!(w.wins.len(), 0);
    assert_eq!(w.draws.len(), 0);
    assert_eq!(w.losses.len(), 0);
}

#[test]
fn bad_rating_is_malformed_at_its_line() {
    let content = "[TimeControl \"600+5\"]\n[WhiteElo \"abc\"]\n";
    match calculate(content.as_bytes()) {
        Err(ScanError::MalformedInput { line }) => assert_eq!(line, 1),
        other => panic!("expected a malformed-input error, got {:?}", other.is_ok()),
    }
}

#[test]
fn unknown_result_token_is_malformed() {
    let content = "[Result \"2-0\"]\n";
    assert!(calculate(content.as_bytes()).is_err());
}

#[test]
fn malformed_time_control_is_fatal() {
    assert!(calculate(b"[TimeControl \"600\"]\n").is_err());
    assert!(calculate(b"[TimeControl \"x+0\"]\n").is_err());
}

#[test]
fn tag_without_quotes_is_malformed() {
    assert!(calculate(b"[Result 1-0]\n").is_err());
}

#[test]
fn two_files_merge_summing_totals() {
    // One file gives bucket 0 wins (1, 1), the other (2, 3); merged they
    // give (3, 4).
    let file_a = record("600+5", 1700, 1705, "1-0");
    let mut file_b = String::new();
    file_b.push_str(&record("600+5", 1700, 1705, "1-0"));
    file_b.push_str(&record("600+5", 1705, 1700, "0-1"));
    file_b.push_str(&record("600+5", 1700, 1705, "1/2-1/2"));
    let files = vec![file_a.into_bytes(), file_b.into_bytes()];
    let total = calculate_from_files(&files).expect("both files scan");
    assert_eq!(total.wins.get(0), Some(Datapoint { value: 3, total: 4 }));
    assert_eq!(total.draws.get(0), Some(Datapoint { value: 1, total: 4 }));
    assert_eq!(total.losses.get(0), Some(Datapoint { value: 0, total: 4 }));
}

#[test]
fn merge_order_of_files_does_not_matter() {
    let file_a = record("600+5", 1700, 1600, "1-0");
    let file_b = record("600+5", 1900, 1600, "1/2-1/2");
    let one = calculate_from_files(&vec![
        file_a.clone().into_bytes(),
        file_b.clone().into_bytes(),
    ])
    .unwrap();
    let two = calculate_from_files(&vec![file_b.into_bytes(), file_a.into_bytes()]).unwrap();
    for bucket in [100, 300] {
        assert_eq!(one.wins.get(bucket), two.wins.get(bucket));
        assert_eq!(one.draws.get(bucket), two.draws.get(bucket));
        assert_eq!(one.losses.get(bucket), two.losses.get(bucket));
    }
}

#[test]
fn datapoint_aggregate_adds_fields() {
    let a = Datapoint { value: 2, total: 5 };
    let b = Datapoint { value: 1, total: 3 };
    assert_eq!(a.aggregate(b), Datapoint { value: 3, total: 8 });
}

fn sample(which: u32) -> WDLData {
    let mut content = String::new();
    match which {
        0 => {
            content.push_str(&record("600+5", 1700, 1600, "1-0"));
            content.push_str(&record("600+5", 1600, 1700, "1/2-1/2"));
        }
        1 => {
            content.push_str(&record("600+5", 1600, 1700, "1-0"));
            content.push_str(&record("600+5", 1900, 1600, "0-1"));
        }
        _ => {
            content.push_str(&record("600+5", 1705, 1700, "0-1"));
            content.push_str(&record("600+5", 1700, 1600, "1-0"));
        }
    }
    scan(&content)
}

fn assert_same(a: &WDLData, b: &WDLData) {
    for bucket in [0, 100, 300] {
        assert_eq!(a.wins.get(bucket), b.wins.get(bucket));
        assert_eq!(a.draws.get(bucket), b.draws.get(bucket));
        assert_eq!(a.losses.get(bucket), b.losses.get(bucket));
    }
    assert_eq!(a.wins.len(), b.wins.len());
    assert_eq!(a.draws.len(), b.draws.len());
    assert_eq!(a.losses.len(), b.losses.len());
}

#[test]
fn merge_is_commutative_on_concrete_values() {
    let ab = sample(0).aggregate(sample(1));
    let ba = sample(1).aggregate(sample(0));
    assert_same(&ab, &ba);
}

#[test]
fn merge_is_associative_on_concrete_values() {
    let left = sample(0).aggregate(sample(1)).aggregate(sample(2));
    let right = sample(0).aggregate(sample(1).aggregate(sample(2)));
    assert_same(&left, &right);
}

#[test]
fn merge_with_empty_is_identity() {
    let a = sample(0);
    let merged = sample(0).aggregate(WDLData::new());
    assert_same(&merged, &a);
    let merged_other_way = WDLData::new().aggregate(sample(0));
    assert_same(&merged_other_way, &a);
}

#[test]
fn sorted_entries_lists_buckets_ascending() {
    let mut content = String::new();
    content.push_str(&record("600+5", 1900, 1600, "0-1"));
    content.push_str(&record("600+5", 1700, 1600, "1-0"));
    content.push_str(&record("600+5", 1705, 1700, "1-0"));
    let w = scan(&content);
    let rows = w.wins.sorted_entries();
    let keys: Vec<i64> = rows.iter().map(|r| r.0).collect();
    assert_eq!(keys, vec![0, 100, 300]);
    assert_eq!(rows[1], (100, 0, 1));
}

#[test]
fn batch_error_names_the_failing_file() {
    let good = record("600+5", 1700, 1600, "1-0");
    let bad = String::from("[WhiteElo \"abc\"]\n");
    let files = vec![good.into_bytes(), bad.into_bytes()];
    match calculate_from_files(&files) {
        Err(err) => {
            assert_eq!(err.file, 1);
            assert_eq!(err.error, ScanError::MalformedInput { line: 0 });
        }
        Ok(_) => panic!("the second file is malformed"),
    }
}
