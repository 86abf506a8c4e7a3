//! The record scanner: a single pass over a file's lines that classifies
//! each finished game into a rating-difference bucket, and the driver that
//! folds per-file results into one accumulator.

use vstd::prelude::*;
use crate::dataset::BucketMap;
use crate::dataset::Dataset;
use crate::dataset::WDLData;
use crate::dataset::counters_at;
use crate::dataset::lemma_merge_counters;
use crate::dataset::wdl_empty;
use crate::dataset::wdl_merge;
use crate::parse::LEFT_BRACKET;
use crate::parse::MalformedInput;
use crate::parse::bytes_eq;
use crate::parse::has_prefix;
use crate::parse::is_prefix;
use crate::parse::lemma_split_lines_len;
use crate::parse::parse_i32;
use crate::parse::parse_i32_spec;
use crate::parse::quoted;
use crate::parse::quoted_value;
use crate::parse::split_lines;
use crate::parse::split_lines_spec;
use crate::parse::tc_spec;
use crate::parse::timecontrol_qualifies;
use crate::rounding::lemma_round25_close;
use crate::rounding::round25;
use crate::rounding::round25_wide;

verus! {

/// The outcome of one game, stated from White's point of view while
/// parsing, and from the lower-rated player's point of view after
/// normalization.
#[derive(Clone, Copy, PartialEq, Eq, Structural, Debug)]
pub enum GameResult {
    Win,
    Draw,
    Loss,
    Unknown,
    Unfinished,
}

/// The same outcome seen from the other player's side: Win and Loss swap,
/// everything else is unaffected.
pub open spec fn invert_spec(r: GameResult) -> GameResult {
    match r {
        GameResult::Win => GameResult::Loss,
        GameResult::Loss => GameResult::Win,
        other => other,
    }
}

impl GameResult {
    /// The same outcome seen from the other player's side.
    pub fn invert(self) -> (r: GameResult)
        ensures
            r == invert_spec(self),
    {
        match self {
            GameResult::Win => GameResult::Loss,
            GameResult::Loss => GameResult::Win,
            other => other,
        }
    }
}

/// The bytes of `[TimeControl`.
pub open spec fn tag_timecontrol() -> Seq<u8> {
    seq![91u8, 84u8, 105u8, 109u8, 101u8, 67u8, 111u8, 110u8, 116u8, 114u8, 111u8, 108u8]
}

/// The bytes of `[WhiteElo`.
pub open spec fn tag_white_rating() -> Seq<u8> {
    seq![91u8, 87u8, 104u8, 105u8, 116u8, 101u8, 69u8, 108u8, 111u8]
}

/// The bytes of `[BlackElo`.
pub open spec fn tag_black_rating() -> Seq<u8> {
    seq![91u8, 66u8, 108u8, 97u8, 99u8, 107u8, 69u8, 108u8, 111u8]
}

/// The bytes of `[Result`.
pub open spec fn tag_result() -> Seq<u8> {
    seq![91u8, 82u8, 101u8, 115u8, 117u8, 108u8, 116u8]
}

/// The bytes of `1-0`.
pub open spec fn token_win() -> Seq<u8> {
    seq![49u8, 45u8, 48u8]
}

/// The bytes of `1/2-1/2`.
pub open spec fn token_draw() -> Seq<u8> {
    seq![49u8, 47u8, 50u8, 45u8, 49u8, 47u8, 50u8]
}

/// The bytes of `0-1`.
pub open spec fn token_loss() -> Seq<u8> {
    seq![48u8, 45u8, 49u8]
}

/// The bytes of `*`.
pub open spec fn token_unfinished() -> Seq<u8> {
    seq![42u8]
}

fn tag_timecontrol_bytes() -> (v: Vec<u8>)
    ensures
        v@ == tag_timecontrol(),
{
    let v: Vec<u8> = vec![91u8, 84u8, 105u8, 109u8, 101u8, 67u8, 111u8, 110u8, 116u8, 114u8, 111u8, 108u8];
    proof {
        assert(v@ =~= tag_timecontrol());
    }
    v
}

fn tag_white_rating_bytes() -> (v: Vec<u8>)
    ensures
        v@ == tag_white_rating(),
{
    let v: Vec<u8> = vec![91u8, 87u8, 104u8, 105u8, 116u8, 101u8, 69u8, 108u8, 111u8];
    proof {
        assert(v@ =~= tag_white_rating());
    }
    v
}

fn tag_black_rating_bytes() -> (v: Vec<u8>)
    ensures
        v@ == tag_black_rating(),
{
    let v: Vec<u8> = vec![91u8, 66u8, 108u8, 97u8, 99u8, 107u8, 69u8, 108u8, 111u8];
    proof {
        assert(v@ =~= tag_black_rating());
    }
    v
}

fn tag_result_bytes() -> (v: Vec<u8>)
    ensures
        v@ == tag_result(),
{
    let v: Vec<u8> = vec![91u8, 82u8, 101u8, 115u8, 117u8, 108u8, 116u8];
    proof {
        assert(v@ =~= tag_result());
    }
    v
}

fn token_win_bytes() -> (v: Vec<u8>)
    ensures
        v@ == token_win(),
{
    let v: Vec<u8> = vec![49u8, 45u8, 48u8];
    proof {
        assert(v@ =~= token_win());
    }
    v
}

fn token_draw_bytes() -> (v: Vec<u8>)
    ensures
        v@ == token_draw(),
{
    let v: Vec<u8> = vec![49u8, 47u8, 50u8, 45u8, 49u8, 47u8, 50u8];
    proof {
        assert(v@ =~= token_draw());
    }
    v
}

fn token_loss_bytes() -> (v: Vec<u8>)
    ensures
        v@ == token_loss(),
{
    let v: Vec<u8> = vec![48u8, 45u8, 49u8];
    proof {
        assert(v@ =~= token_loss());
    }
    v
}

fn token_unfinished_bytes() -> (v: Vec<u8>)
    ensures
        v@ == token_unfinished(),
{
    let v: Vec<u8> = vec![42u8];
    proof {
        assert(v@ =~= token_unfinished());
    }
    v
}

/// The game result a result-tag value denotes, or `None` for an
/// unrecognized token (a fatal condition).
pub open spec fn result_token(v: Seq<u8>) -> Option<GameResult> {
    if v == token_win() {
        Some(GameResult::Win)
    } else if v == token_draw() {
        Some(GameResult::Draw)
    } else if v == token_loss() {
        Some(GameResult::Loss)
    } else if v == token_unfinished() {
        Some(GameResult::Unfinished)
    } else {
        None
    }
}

/// The per-file scanner state: the pending skip flag, the last-seen ratings
/// and result, and the tallies accumulated so far.
pub ghost struct ScanState {
    pub skip: bool,
    pub white: i32,
    pub black: i32,
    pub white_result: GameResult,
    pub wins: BucketMap,
    pub draws: BucketMap,
    pub losses: BucketMap,
}

/// The state a file scan starts from.
pub open spec fn init_state() -> ScanState {
    ScanState {
        skip: false,
        white: 0,
        black: 0,
        white_result: GameResult::Unknown,
        wins: Map::empty(),
        draws: Map::empty(),
        losses: Map::empty(),
    }
}

/// Adds one game to a bucket map: the total rises by one, the value by one
/// exactly when the game counts as a success for this map.
pub open spec fn bump(m: BucketMap, k: int, success: bool) -> BucketMap {
    m.insert(
        k,
        (
            (counters_at(m, k).0 + if success {
                1nat
            } else {
                0nat
            }) as nat,
            (counters_at(m, k).1 + 1) as nat,
        ),
    )
}

/// The bucket of a game: each side's rating rounded to the nearest multiple
/// of 25, higher minus lower.
pub open spec fn bucket_of(white: int, black: int) -> int {
    if white <= black {
        round25(black) - round25(white)
    } else {
        round25(white) - round25(black)
    }
}

/// What happens at a record terminator: the game is discarded when the skip
/// flag is set, the result is Unfinished or Unknown, or the ratings are
/// equal; otherwise all three totals of its bucket rise and the success of
/// the lower-rated player's outcome rises, and the skip flag is set so that
/// further terminator lines of the same record change nothing.
pub open spec fn classify(st: ScanState) -> ScanState {
    if st.skip || st.white_result == GameResult::Unfinished || st.white_result
        == GameResult::Unknown || st.white == st.black {
        st
    } else {
        let k = bucket_of(st.white as int, st.black as int);
        let persp = if st.white < st.black {
            st.white_result
        } else {
            invert_spec(st.white_result)
        };
        ScanState {
            skip: true,
            wins: bump(st.wins, k, persp == GameResult::Win),
            draws: bump(st.draws, k, persp == GameResult::Draw),
            losses: bump(st.losses, k, persp == GameResult::Loss),
            ..st
        }
    }
}

/// One line's effect on the scanner state; `None` is a fatal
/// malformed-input condition.
pub open spec fn step(st: ScanState, line: Seq<u8>) -> Option<ScanState> {
    if is_prefix(line, tag_timecontrol()) {
        match quoted(line) {
            Some(v) => match tc_spec(v) {
                Some(q) => Some(ScanState { skip: !q, ..st }),
                None => None,
            },
            None => None,
        }
    } else if is_prefix(line, tag_white_rating()) {
        match quoted(line) {
            Some(v) => match parse_i32_spec(v) {
                Some(x) => Some(ScanState { white: x, ..st }),
                None => None,
            },
            None => None,
        }
    } else if is_prefix(line, tag_black_rating()) {
        match quoted(line) {
            Some(v) => match parse_i32_spec(v) {
                Some(x) => Some(ScanState { black: x, ..st }),
                None => None,
            },
            None => None,
        }
    } else if is_prefix(line, tag_result()) {
        match quoted(line) {
            Some(v) => match result_token(v) {
                Some(g) => Some(ScanState { white_result: g, ..st }),
                None => None,
            },
            None => None,
        }
    } else if line.len() > 0 && line[0] == LEFT_BRACKET {
        Some(st)
    } else {
        Some(classify(st))
    }
}

/// Scanning a sequence of lines from a given state, line by line.
pub open spec fn scan_from(st: ScanState, lines: Seq<Seq<u8>>) -> Option<ScanState>
    decreases lines.len(),
{
    if lines.len() == 0 {
        Some(st)
    } else {
        match scan_from(st, lines.drop_last()) {
            Some(m) => step(m, lines.last()),
            None => None,
        }
    }
}

/// Scanning a whole file: its lines, from the initial state.
pub open spec fn scan_file(content: Seq<u8>) -> Option<ScanState> {
    scan_from(init_state(), split_lines_spec(content))
}

pub(crate) proof fn lemma_scan_snoc(st: ScanState, lines: Seq<Seq<u8>>, i: int)
    requires
        0 <= i < lines.len(),
    ensures
        scan_from(st, lines.take(i + 1)) == (match scan_from(st, lines.take(i)) {
            Some(m) => step(m, lines[i]),
            None => None::<ScanState>,
        }),
{
    assert(lines.take(i + 1).drop_last() =~= lines.take(i));
    assert(lines.take(i + 1).last() == lines[i]);
}

pub(crate) proof fn lemma_scan_prefix_none(st: ScanState, lines: Seq<Seq<u8>>, i: int)
    requires
        0 <= i < lines.len(),
        scan_from(st, lines.take(i)) is Some,
        step(scan_from(st, lines.take(i))->Some_0, lines[i]) is None,
    ensures
        scan_from(st, lines) is None,
    decreases lines.len(),
{
    if i + 1 == lines.len() {
        assert(lines.take(i) =~= lines.drop_last());
        assert(lines.last() == lines[i]);
    } else {
        assert(lines.drop_last().take(i) =~= lines.take(i));
        assert(lines.drop_last()[i] == lines[i]);
        lemma_scan_prefix_none(st, lines.drop_last(), i);
    }
}

/// The three bucket maps of a state, wins first.
pub open spec fn st_maps(st: ScanState) -> (BucketMap, BucketMap, BucketMap) {
    (st.wins, st.draws, st.losses)
}

/// The structural invariant of the tallies: the three maps hold exactly the
/// same buckets; on each bucket the three totals are one shared count, the
/// three success counts partition that count, and it is at most `bound`.
pub open spec fn tallies_consistent(t: (BucketMap, BucketMap, BucketMap), bound: nat) -> bool {
    &&& t.0.dom() == t.1.dom()
    &&& t.1.dom() == t.2.dom()
    &&& forall|k: int| #[trigger]
        t.0.dom().contains(k) ==> t.0[k].1 == t.1[k].1 && t.1[k].1 == t.2[k].1 && t.0[k].0
            + t.1[k].0 + t.2[k].0 == t.0[k].1 && t.0[k].1 <= bound
}

proof fn lemma_tallies_mono(t: (BucketMap, BucketMap, BucketMap), b1: nat, b2: nat)
    requires
        tallies_consistent(t, b1),
        b1 <= b2,
    ensures
        tallies_consistent(t, b2),
{
}

proof fn lemma_step_tallies(st: ScanState, line: Seq<u8>, bound: nat)
    requires
        tallies_consistent(st_maps(st), bound),
        step(st, line) is Some,
    ensures
        tallies_consistent(st_maps(step(st, line)->Some_0), bound + 1),
{
    let st2 = step(st, line)->Some_0;
    if !is_prefix(line, tag_timecontrol()) && !is_prefix(line, tag_white_rating()) && !is_prefix(
        line,
        tag_black_rating(),
    ) && !is_prefix(line, tag_result()) && !(line.len() > 0 && line[0] == LEFT_BRACKET) {
        if st.skip || st.white_result == GameResult::Unfinished || st.white_result
            == GameResult::Unknown || st.white == st.black {
        } else {
            let k = bucket_of(st.white as int, st.black as int);
            let persp = if st.white < st.black {
                st.white_result
            } else {
                invert_spec(st.white_result)
            };
            assert(persp == GameResult::Win || persp == GameResult::Draw || persp
                == GameResult::Loss);
            assert(st2.wins.dom() =~= st.wins.dom().insert(k));
            assert(st2.draws.dom() =~= st.draws.dom().insert(k));
            assert(st2.losses.dom() =~= st.losses.dom().insert(k));
            assert forall|k2: int| #[trigger] st2.wins.dom().contains(k2) implies st2.wins[k2].1
                == st2.draws[k2].1 && st2.draws[k2].1 == st2.losses[k2].1 && st2.wins[k2].0
                + st2.draws[k2].0 + st2.losses[k2].0 == st2.wins[k2].1 && st2.wins[k2].1 <= bound
                + 1 by {
                if k2 == k {
                    if st.wins.dom().contains(k) {
                        assert(st.wins.dom().contains(k2));
                    }
                } else {
                    assert(st.wins.dom().contains(k2));
                }
            }
        }
    }
}

pub(crate) proof fn lemma_scan_from_tallies(st: ScanState, lines: Seq<Seq<u8>>, base: nat)
    requires
        tallies_consistent(st_maps(st), base),
        scan_from(st, lines) is Some,
    ensures
        tallies_consistent(st_maps(scan_from(st, lines)->Some_0), base + lines.len()),
    decreases lines.len(),
{
    if lines.len() == 0 {
    } else {
        lemma_scan_from_tallies(st, lines.drop_last(), base);
        lemma_step_tallies(
            scan_from(st, lines.drop_last())->Some_0,
            lines.last(),
            (base + lines.len() - 1) as nat,
        );
    }
}

/// After scanning any file, the three datasets hold exactly the same
/// buckets; on each bucket the wins, draws and losses totals are one shared
/// count — every classified game raised all three — the three success
/// counts partition that count, and it is at most the number of lines.
pub proof fn lemma_scan_file_tallies(content: Seq<u8>)
    requires
        scan_file(content) is Some,
    ensures
        tallies_consistent(
            st_maps(scan_file(content)->Some_0),
            split_lines_spec(content).len(),
        ),
{
    assert(tallies_consistent(st_maps(init_state()), 0));
    lemma_scan_from_tallies(init_state(), split_lines_spec(content), 0);
}

/// The line ends a record and the pending state classifies its game: the
/// line is no tag line, the skip flag is clear, the result is decisive, and
/// the ratings differ.
pub open spec fn classifies(st: ScanState, line: Seq<u8>) -> bool {
    &&& !is_prefix(line, tag_timecontrol())
    &&& !is_prefix(line, tag_white_rating())
    &&& !is_prefix(line, tag_black_rating())
    &&& !is_prefix(line, tag_result())
    &&& !(line.len() > 0 && line[0] == LEFT_BRACKET)
    &&& !st.skip
    &&& st.white_result != GameResult::Unfinished
    &&& st.white_result != GameResult::Unknown
    &&& st.white != st.black
}

/// How many games a scan starting at `st0` classifies into bucket `k`.
pub open spec fn classified_count(st0: ScanState, lines: Seq<Seq<u8>>, k: int) -> nat
    decreases lines.len(),
{
    if lines.len() == 0 {
        0
    } else {
        classified_count(st0, lines.drop_last(), k) + (match scan_from(st0, lines.drop_last()) {
            Some(m) => if classifies(m, lines.last()) && bucket_of(m.white as int, m.black as int)
                == k {
                1nat
            } else {
                0nat
            },
            None => 0nat,
        })
    }
}

proof fn lemma_scan_counts(st0: ScanState, lines: Seq<Seq<u8>>, k: int)
    requires
        scan_from(st0, lines) is Some,
    ensures
        counters_at(scan_from(st0, lines)->Some_0.wins, k).1 == counters_at(st0.wins, k).1
            + classified_count(st0, lines, k),
    decreases lines.len(),
{
    if lines.len() == 0 {
    } else {
        lemma_scan_counts(st0, lines.drop_last(), k);
    }
}

/// Each bucket's total in a scanned file is exactly the number of games the
/// scan classified into it: qualifying, decisive, unequal-rating games whose
/// per-side-rounded rating difference is the bucket key.
pub proof fn lemma_scan_file_counts(content: Seq<u8>, k: int)
    requires
        scan_file(content) is Some,
    ensures
        counters_at(scan_file(content)->Some_0.wins, k).1 == classified_count(
            init_state(),
            split_lines_spec(content),
            k,
        ),
{
    lemma_scan_counts(init_state(), split_lines_spec(content), k);
}

/// A tag value failed to parse somewhere in a scanned file; `line` is the
/// index of the offending line.
#[derive(Clone, Copy, PartialEq, Eq, Structural, Debug)]
pub enum ScanError {
    MalformedInput { line: usize },
}

/// The live scanner: the mutable parse state of one file's pass.
struct ScanMachine {
    skip: bool,
    white: i32,
    black: i32,
    white_result: GameResult,
    wins: Dataset,
    draws: Dataset,
    losses: Dataset,
}

impl ScanMachine {
    spec fn wf(&self) -> bool {
        self.wins.wf() && self.draws.wf() && self.losses.wf()
    }

    spec fn abs(&self) -> ScanState {
        ScanState {
            skip: self.skip,
            white: self.white,
            black: self.black,
            white_result: self.white_result,
            wins: self.wins@,
            draws: self.draws@,
            losses: self.losses@,
        }
    }

    fn new() -> (r: ScanMachine)
        ensures
            r.wf(),
            r.abs() == init_state(),
    {
        ScanMachine {
            skip: false,
            white: 0,
            black: 0,
            white_result: GameResult::Unknown,
            wins: Dataset::new(),
            draws: Dataset::new(),
            losses: Dataset::new(),
        }
    }

    /// Applies one line to the state, exactly as [`step`] describes.
    fn step_line(&mut self, line: &[u8], Ghost(bound): Ghost<nat>) -> (r: Result<
        (),
        MalformedInput,
    >)
        requires
            old(self).wf(),
            tallies_consistent(st_maps(old(self).abs()), bound),
            bound + 1 <= u32::MAX,
        ensures
            final(self).wf(),
            match r {
                Ok(_) => step(old(self).abs(), line@) == Some(final(self).abs()),
                Err(_) => step(old(self).abs(), line@) is None,
            },
    {
        let tag_tc = tag_timecontrol_bytes();
        let tag_w = tag_white_rating_bytes();
        let tag_b = tag_black_rating_bytes();
        let tag_r = tag_result_bytes();
        if has_prefix(line, tag_tc.as_slice()) {
            match quoted_value(line) {
                Some(v) => match timecontrol_qualifies(v) {
                    Ok(q) => {
                        self.skip = !q;
                        Ok(())
                    },
                    Err(e) => Err(e),
                },
                None => Err(MalformedInput),
            }
        } else if has_prefix(line, tag_w.as_slice()) {
            match quoted_value(line) {
                Some(v) => match parse_i32(v) {
                    Some(x) => {
                        self.white = x;
                        Ok(())
                    },
                    None => Err(MalformedInput),
                },
                None => Err(MalformedInput),
            }
        } else if has_prefix(line, tag_b.as_slice()) {
            match quoted_value(line) {
                Some(v) => match parse_i32(v) {
                    Some(x) => {
                        self.black = x;
                        Ok(())
                    },
                    None => Err(MalformedInput),
                },
                None => Err(MalformedInput),
            }
        } else if has_prefix(line, tag_r.as_slice()) {
            match quoted_value(line) {
                Some(v) => {
                    let tok_win = token_win_bytes();
                    let tok_draw = token_draw_bytes();
                    let tok_loss = token_loss_bytes();
                    let tok_star = token_unfinished_bytes();
                    if bytes_eq(v, tok_win.as_slice()) {
                        self.white_result = GameResult::Win;
                        Ok(())
                    } else if bytes_eq(v, tok_draw.as_slice()) {
                        self.white_result = GameResult::Draw;
                        Ok(())
                    } else if bytes_eq(v, tok_loss.as_slice()) {
                        self.white_result = GameResult::Loss;
                        Ok(())
                    } else if bytes_eq(v, tok_star.as_slice()) {
                        self.white_result = GameResult::Unfinished;
                        Ok(())
                    } else {
                        Err(MalformedInput)
                    }
                },
                None => Err(MalformedInput),
            }
        } else {
            let starts_bracket = if line.len() > 0 {
                line[0] == LEFT_BRACKET
            } else {
                false
            };
            if starts_bracket {
                Ok(())
            } else {
                if !self.skip && self.white_result != GameResult::Unfinished && self.white_result
                    != GameResult::Unknown && self.white != self.black {
                    let lo = if self.white < self.black {
                        self.white
                    } else {
                        self.black
                    };
                    let hi = if self.white < self.black {
                        self.black
                    } else {
                        self.white
                    };
                    let rl = round25_wide(lo);
                    let rh = round25_wide(hi);
                    proof {
                        lemma_round25_close(lo as int);
                        lemma_round25_close(hi as int);
                    }
                    let bucket: i64 = rh - rl;
                    let persp = if self.white < self.black {
                        self.white_result
                    } else {
                        self.white_result.invert()
                    };
                    proof {
                        if self.wins@.dom().contains(bucket as int) {
                            assert(counters_at(self.wins@, bucket as int).1 <= bound);
                        }
                        if self.draws@.dom().contains(bucket as int) {
                            assert(self.wins@.dom().contains(bucket as int));
                        }
                        if self.losses@.dom().contains(bucket as int) {
                            assert(self.wins@.dom().contains(bucket as int));
                        }
                    }
                    let wv: u32 = if persp == GameResult::Win {
                        1
                    } else {
                        0
                    };
                    let dv: u32 = if persp == GameResult::Draw {
                        1
                    } else {
                        0
                    };
                    let lv: u32 = if persp == GameResult::Loss {
                        1
                    } else {
                        0
                    };
                    self.wins.add_counts(bucket, wv, 1);
                    self.draws.add_counts(bucket, dv, 1);
                    self.losses.add_counts(bucket, lv, 1);
                    self.skip = true;
                    proof {
                        let ost = old(self).abs();
                        let k = bucket_of(ost.white as int, ost.black as int);
                        assert(bucket as int == k);
                        assert(self.wins@ == bump(ost.wins, k, persp == GameResult::Win));
                        assert(self.draws@ == bump(ost.draws, k, persp == GameResult::Draw));
                        assert(self.losses@ == bump(ost.losses, k, persp == GameResult::Loss));
                        assert(self.abs() == classify(ost));
                    }
                    Ok(())
                } else {
                    Ok(())
                }
            }
        }
    }
}

/// Scans one record file, given as its raw bytes, into per-bucket win,
/// draw and loss tallies for the lower-rated player. Returns the first
/// malformed line's index on failure; the length bound only keeps the
/// counters representable.
pub fn calculate(content: &[u8]) -> (r: Result<WDLData, ScanError>)
    requires
        content@.len() <= u32::MAX,
    ensures
        match r {
            Ok(w) => w.wf() && scan_file(content@) is Some && w@ == st_maps(
                scan_file(content@)->Some_0,
            ),
            Err(e) => scan_file(content@) is None && match e {
                ScanError::MalformedInput { line } => {
                    let lines = split_lines_spec(content@);
                    &&& line < lines.len()
                    &&& scan_from(init_state(), lines.take(line as int)) is Some
                    &&& step(
                        scan_from(init_state(), lines.take(line as int))->Some_0,
                        lines[line as int],
                    ) is None
                },
            },
        },
{
    let lines = split_lines(content);
    let ghost ls = split_lines_spec(content@);
    proof {
        lemma_split_lines_len(content@);
        assert(ls.take(0) =~= Seq::<Seq<u8>>::empty());
    }
    let mut m = ScanMachine::new();
    let n = lines.len();
    let mut i: usize = 0;
    while i < n
        invariant
            m.wf(),
            ls == split_lines_spec(content@),
            n == lines@.len(),
            n == ls.len(),
            n <= u32::MAX,
            forall|j: int| 0 <= j < n ==> lines@[j]@ == ls[j],
            i <= n,
            scan_from(init_state(), ls.take(i as int)) is Some,
            m.abs() == scan_from(init_state(), ls.take(i as int))->Some_0,
        decreases n - i,
    {
        proof {
            lemma_scan_snoc(init_state(), ls, i as int);
            assert(tallies_consistent(st_maps(init_state()), 0));
            lemma_scan_from_tallies(init_state(), ls.take(i as int), 0);
        }
        let lv = vstd::slice::slice_index_get(lines.as_slice(), i);
        match m.step_line(lv.as_slice(), Ghost(i as nat)) {
            Ok(_) => {},
            Err(_) => {
                proof {
                    assert(lines@[i as int]@ == ls[i as int]);
                    assert(step(
                        scan_from(init_state(), ls.take(i as int))->Some_0,
                        ls[i as int],
                    ) is None);
                    lemma_scan_prefix_none(init_state(), ls, i as int);
                }
                return Err(ScanError::MalformedInput { line: i });
            },
        }
        i += 1;
    }
    proof {
        assert(ls.take(n as int) =~= ls);
    }
    Ok(WDLData { wins: m.wins, draws: m.draws, losses: m.losses })
}

/// The bytes of all files together.
pub open spec fn total_len(files: Seq<Seq<u8>>) -> nat
    decreases files.len(),
{
    if files.len() == 0 {
        0
    } else {
        total_len(files.drop_last()) + files.last().len()
    }
}

proof fn lemma_total_len_snoc(files: Seq<Seq<u8>>, j: int)
    requires
        0 <= j < files.len(),
    ensures
        total_len(files.take(j + 1)) == total_len(files.take(j)) + files[j].len(),
{
    assert(files.take(j + 1).drop_last() =~= files.take(j));
    assert(files.take(j + 1).last() == files[j]);
}

proof fn lemma_total_len_prefix(files: Seq<Seq<u8>>, j: int)
    requires
        0 <= j <= files.len(),
    ensures
        total_len(files.take(j)) <= total_len(files),
    decreases files.len() - j,
{
    if j == files.len() {
        assert(files.take(j) =~= files);
    } else {
        lemma_total_len_snoc(files, j);
        lemma_total_len_prefix(files, j + 1);
    }
}

/// The cross-file fold: each file scanned from scratch, the results merged
/// (newest file on the left of each merge); `None` as soon
/// as any file is malformed.
pub open spec fn scan_all(files: Seq<Seq<u8>>) -> Option<(BucketMap, BucketMap, BucketMap)>
    decreases files.len(),
{
    if files.len() == 0 {
        Some(wdl_empty())
    } else {
        match (scan_all(files.drop_last()), scan_file(files.last())) {
            (Some(acc), Some(st)) => Some(wdl_merge(st_maps(st), acc)),
            _ => None,
        }
    }
}

proof fn lemma_scan_all_none(files: Seq<Seq<u8>>, j: int)
    requires
        0 <= j < files.len(),
        scan_file(files[j]) is None,
    ensures
        scan_all(files) is None,
    decreases files.len(),
{
    if j + 1 == files.len() {
        assert(files.last() == files[j]);
    } else {
        assert(files.drop_last()[j] == files[j]);
        lemma_scan_all_none(files.drop_last(), j);
    }
}

proof fn lemma_merge_tallies(
    a: (BucketMap, BucketMap, BucketMap),
    b: (BucketMap, BucketMap, BucketMap),
    na: nat,
    nb: nat,
)
    requires
        tallies_consistent(a, na),
        tallies_consistent(b, nb),
    ensures
        tallies_consistent(wdl_merge(a, b), na + nb),
{
    let m = wdl_merge(a, b);
    assert(m.0.dom() =~= m.1.dom());
    assert(m.1.dom() =~= m.2.dom());
    assert forall|k: int| #[trigger] m.0.dom().contains(k) implies m.0[k].1 == m.1[k].1
        && m.1[k].1 == m.2[k].1 && m.0[k].0 + m.1[k].0 + m.2[k].0 == m.0[k].1 && m.0[k].1 <= na
        + nb by {
        lemma_merge_counters(a.0, b.0, k);
        lemma_merge_counters(a.1, b.1, k);
        lemma_merge_counters(a.2, b.2, k);
        if a.0.dom().contains(k) {
            assert(a.1.dom().contains(k) && a.2.dom().contains(k));
        }
        if b.0.dom().contains(k) {
            assert(b.1.dom().contains(k) && b.2.dom().contains(k));
        }
    }
}

/// A file of the batch failed to scan: `file` is its index, `error` says
/// where inside it.
#[derive(Clone, Copy, PartialEq, Eq, Structural, Debug)]
pub struct BatchError {
    pub file: usize,
    pub error: ScanError,
}

/// Scans every file of the batch and folds the per-file tallies into one
/// accumulator, aborting on the first malformed file. The length bound only
/// keeps the counters representable.
pub fn calculate_from_files(files: &Vec<Vec<u8>>) -> (r: Result<WDLData, BatchError>)
    requires
        total_len(files.deep_view()) <= u32::MAX,
    ensures
        match r {
            Ok(w) => w.wf() && scan_all(files.deep_view()) == Some(w@),
            Err(e) => ({
                let fv = files.deep_view();
                &&& scan_all(fv) is None
                &&& e.file < fv.len()
                &&& forall|t: int| 0 <= t < e.file ==> scan_file(#[trigger] fv[t]) is Some
                &&& scan_file(fv[e.file as int]) is None
                &&& match e.error {
                    ScanError::MalformedInput { line } => {
                        let lines = split_lines_spec(fv[e.file as int]);
                        &&& line < lines.len()
                        &&& scan_from(init_state(), lines.take(line as int)) is Some
                        &&& step(
                            scan_from(init_state(), lines.take(line as int))->Some_0,
                            lines[line as int],
                        ) is None
                    },
                }
            }),
        },
{
    let ghost fv = files.deep_view();
    let mut total = WDLData::new();
    let n = files.len();
    proof {
        assert(fv.take(0) =~= Seq::<Seq<u8>>::empty());
        assert(tallies_consistent(wdl_empty(), 0));
        assert(forall|t: int| 0 <= t < n ==> fv[t] == #[trigger] files@[t]@);
    }
    let mut j: usize = 0;
    while j < n
        invariant
            n == files@.len(),
            fv == files.deep_view(),
            fv.len() == n,
            forall|t: int| 0 <= t < n ==> fv[t] == #[trigger] files@[t]@,
            total_len(fv) <= u32::MAX,
            j <= n,
            total.wf(),
            scan_all(fv.take(j as int)) == Some(total@),
            tallies_consistent(total@, total_len(fv.take(j as int))),
            forall|t: int| 0 <= t < j ==> scan_file(#[trigger] fv[t]) is Some,
        decreases n - j,
    {
        let f = vstd::slice::slice_index_get(files.as_slice(), j);
        proof {
            lemma_total_len_snoc(fv, j as int);
            lemma_total_len_prefix(fv, j as int + 1);
        }
        match calculate(f.as_slice()) {
            Ok(w) => {
                let ghost acc_old = total@;
                let ghost file_bound = fv[j as int].len();
                proof {
                    lemma_scan_file_tallies(fv[j as int]);
                    lemma_split_lines_len(fv[j as int]);
                    lemma_tallies_mono(w@, split_lines_spec(fv[j as int]).len(), file_bound);
                    assert forall|k: int| #[trigger] total.wins@.dom().contains(k) implies
                        counters_at(w.wins@, k).0 + counters_at(total.wins@, k).0 <= u32::MAX
                        && counters_at(w.wins@, k).1 + counters_at(total.wins@, k).1
                        <= u32::MAX by {
                        if w.wins@.dom().contains(k) {
                            assert(counters_at(w.wins@, k).1 <= file_bound);
                        }
                    }
                    assert forall|k: int| #[trigger] total.draws@.dom().contains(k) implies
                        counters_at(w.draws@, k).0 + counters_at(total.draws@, k).0 <= u32::MAX
                        && counters_at(w.draws@, k).1 + counters_at(total.draws@, k).1
                        <= u32::MAX by {
                        assert(total.wins@.dom().contains(k));
                        if w.draws@.dom().contains(k) {
                            assert(w.wins@.dom().contains(k));
                        }
                    }
                    assert forall|k: int| #[trigger] total.losses@.dom().contains(k) implies
                        counters_at(w.losses@, k).0 + counters_at(total.losses@, k).0 <= u32::MAX
                        && counters_at(w.losses@, k).1 + counters_at(total.losses@, k).1
                        <= u32::MAX by {
                        assert(total.wins@.dom().contains(k));
                        if w.losses@.dom().contains(k) {
                            assert(w.wins@.dom().contains(k));
                        }
                    }
                    lemma_merge_tallies(w@, total@, file_bound, total_len(fv.take(j as int)));
                }
                total = w.aggregate(total);
                proof {
                    assert(fv.take(j as int + 1).drop_last() =~= fv.take(j as int));
                    assert(fv.take(j as int + 1).last() == fv[j as int]);
                }
            },
            Err(e) => {
                proof {
                    lemma_scan_all_none(fv, j as int);
                }
                return Err(BatchError { file: j, error: e });
            },
        }
        j += 1;
    }
    proof {
        assert(fv.take(n as int) =~= fv);
    }
    Ok(total)
}

} // verus!
