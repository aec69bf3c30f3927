//! Texts on the progress of a search.

use vstd::prelude::*;

use crate::ace::eval::{MATE, RACE_MATE};
use crate::ace::search::{AceDepthLogEntry, Progress};
use crate::ace::think::ThinkResult;
use crate::util::text::{
    decimal, integer, keyed, push_decimal, push_integer, push_keyed, push_keyed_signed,
    push_keyed_text, push_text,
};

verus! {

/// A distance from zero.
pub open spec fn magnitude(x: int) -> int {
    if x < 0 {
        -x
    } else {
        x
    }
}

/// The text of a score: near the mate score a mate, just below the race score a
/// race, otherwise the number.
pub open spec fn label_text(score: int) -> Seq<char> {
    let size = magnitude(score);
    if size >= MATE - 1_000 {
        let plies = if size < MATE {
            MATE - size
        } else {
            0
        };
        if score > 0 {
            "mate in "@ + integer(plies)
        } else {
            "mated in "@ + integer(plies)
        }
    } else if RACE_MATE - 1_000 <= size <= RACE_MATE {
        if score > 0 {
            "race win in "@ + integer(RACE_MATE - size)
        } else {
            "race loss in "@ + integer(RACE_MATE - size)
        }
    } else {
        "cp "@ + integer(score)
    }
}

/// Names a score.
pub fn score_label(score: i32) -> (r: String)
    requires
        score > i32::MIN,
    ensures
        r@ == label_text(score as int),
{
    let size: i32 = if score < 0 {
        -score
    } else {
        score
    };
    let mut s: String = String::new();
    if size >= MATE - 1_000 {
        let plies: i32 = if size < MATE {
            MATE - size
        } else {
            0
        };
        if score > 0 {
            push_text(&mut s, "mate in ");
        } else {
            push_text(&mut s, "mated in ");
        }
        push_integer(&mut s, plies);
    } else if size >= RACE_MATE - 1_000 && size <= RACE_MATE {
        if score > 0 {
            push_text(&mut s, "race win in ");
        } else {
            push_text(&mut s, "race loss in ");
        }
        push_integer(&mut s, RACE_MATE - size);
    } else {
        push_text(&mut s, "cp ");
        push_integer(&mut s, score);
    }
    assert(s@ =~= label_text(score as int));
    s
}

/// The text between quotes: backslashes and quotes are escaped.
pub open spec fn escaped(t: Seq<char>) -> Seq<char>
    decreases t.len(),
{
    if t.len() == 0 {
        Seq::empty()
    } else if t.last() == '\\' || t.last() == '"' {
        escaped(t.drop_last()).push('\\').push(t.last())
    } else {
        escaped(t.drop_last()).push(t.last())
    }
}

/// Appends a text with backslashes and quotes escaped.
fn push_escaped(s: &mut String, t: &str)
    ensures
        final(s)@ == old(s)@ + escaped(t@),
{
    let n: usize = t.unicode_len();
    let mut i: usize = 0;
    assert(s@ =~= old(s)@ + escaped(t@.subrange(0, 0)));
    while i < n
        invariant
            i <= n,
            n == t@.len(),
            s@ == old(s)@ + escaped(t@.subrange(0, i as int)),
        decreases n - i,
    {
        let c: char = t.get_char(i);
        let ghost part = t@.subrange(0, i + 1);
        assert(part.drop_last() =~= t@.subrange(0, i as int));
        if c == '\\' || c == '"' {
            s.push('\\');
        }
        s.push(c);
        assert(s@ =~= old(s)@ + escaped(part));
        i += 1;
    }
    assert(t@.subrange(0, n as int) =~= t@);
}

/// One line of the depth log.
pub open spec fn entry_text(e: AceDepthLogEntry) -> Seq<char> {
    "{\"depth\":"@ + integer(e.depth as int) + ",\"score\":"@ + integer(e.score as int)
        + ",\"scoreText\":\""@ + label_text(e.score as int) + "\",\"nodes\":"@ + decimal(
        e.nodes as nat,
    ) + ",\"elapsedMs\":"@ + decimal(e.elapsed_ms as nat) + ",\"marginalNodes\":"@ + decimal(
        e.marginal_nodes as nat,
    ) + ",\"pv\":\""@ + escaped(e.pv@) + "\"}"@
}

fn push_entry(s: &mut String, e: &AceDepthLogEntry)
    requires
        e.score > i32::MIN,
    ensures
        final(s)@ == old(s)@ + entry_text(*e),
{
    push_text(s, "{\"depth\":");
    push_integer(s, e.depth);
    push_text(s, ",\"score\":");
    push_integer(s, e.score);
    push_text(s, ",\"scoreText\":\"");
    push_text(s, score_label(e.score).as_str());
    push_text(s, "\",\"nodes\":");
    push_decimal(s, e.nodes);
    push_text(s, ",\"elapsedMs\":");
    push_decimal(s, e.elapsed_ms);
    push_text(s, ",\"marginalNodes\":");
    push_decimal(s, e.marginal_nodes);
    push_text(s, ",\"pv\":\"");
    push_escaped(s, e.pv.as_str());
    push_text(s, "\"}");
    assert(s@ =~= old(s)@ + entry_text(*e));
}

/// The first `n` lines, with commas between.
pub open spec fn entries_text(log: Seq<AceDepthLogEntry>, n: int) -> Seq<char>
    decreases n,
{
    if n <= 0 {
        Seq::empty()
    } else if n == 1 {
        entry_text(log[0])
    } else {
        entries_text(log, n - 1).push(',') + entry_text(log[n - 1])
    }
}

/// The report as a line of JSON.
pub open spec fn progress_text(p: Progress) -> Seq<char> {
    "info json {\"engine\":\""@ + p.label@ + "\",\"stoppedBy\":\""@ + p.label@
        + "\",\"searchDepth\":"@ + integer(p.search_depth as int) + ",\"nodes\":"@ + decimal(
        p.nodes as nat,
    ) + ",\"rootScore\":"@ + integer(p.root_score as int) + ",\"rootScoreText\":\""@ + label_text(
        p.root_score as int,
    ) + "\",\"whiteDist\":"@ + decimal(p.white_dist as nat) + ",\"blackDist\":"@ + decimal(
        p.black_dist as nat,
    ) + ",\"elapsedMs\":"@ + decimal(p.elapsed_ms as nat) + ",\"depthLog\":["@ + entries_text(
        p.depth_log@,
        p.depth_log@.len() as int,
    ) + "]}"@
}

/// The report as a line of JSON.
pub fn progress_json(p: &Progress) -> (r: String)
    requires
        p.root_score > i32::MIN,
        forall|i: int|
            0 <= i < p.depth_log@.len() ==> (#[trigger] p.depth_log[i]).score > i32::MIN,
    ensures
        r@ == progress_text(*p),
{
    let mut list: String = String::new();
    let n: usize = p.depth_log.len();
    let mut i: usize = 0;
    assert(list@ =~= entries_text(p.depth_log@, 0));
    while i < n
        invariant
            i <= n,
            n == p.depth_log@.len(),
            forall|j: int|
                0 <= j < p.depth_log@.len() ==> (#[trigger] p.depth_log[j]).score > i32::MIN,
            list@ == entries_text(p.depth_log@, i as int),
        decreases n - i,
    {
        if i > 0 {
            list.push(',');
        }
        push_entry(&mut list, &p.depth_log[i]);
        assert(list@ =~= entries_text(p.depth_log@, i + 1));
        i += 1;
    }
    let mut s: String = String::new();
    push_text(&mut s, "info json {\"engine\":\"");
    push_text(&mut s, p.label.as_str());
    push_text(&mut s, "\",\"stoppedBy\":\"");
    push_text(&mut s, p.label.as_str());
    push_text(&mut s, "\",\"searchDepth\":");
    push_integer(&mut s, p.search_depth);
    push_text(&mut s, ",\"nodes\":");
    push_decimal(&mut s, p.nodes);
    push_text(&mut s, ",\"rootScore\":");
    push_integer(&mut s, p.root_score);
    push_text(&mut s, ",\"rootScoreText\":\"");
    push_text(&mut s, score_label(p.root_score).as_str());
    push_text(&mut s, "\",\"whiteDist\":");
    push_decimal(&mut s, p.white_dist as u64);
    push_text(&mut s, ",\"blackDist\":");
    push_decimal(&mut s, p.black_dist as u64);
    push_text(&mut s, ",\"elapsedMs\":");
    push_decimal(&mut s, p.elapsed_ms);
    push_text(&mut s, ",\"depthLog\":[");
    push_text(&mut s, list.as_str());
    push_text(&mut s, "]}");
    assert(s@ =~= progress_text(*p));
    s
}

/// One line of the log of a single move.
pub open spec fn plain_entry_text(e: AceDepthLogEntry) -> Seq<char> {
    keyed("{\"depth\":"@, e.depth as int) + keyed(",\"score\":"@, e.score as int) + keyed(
        ",\"nodes\":"@,
        e.nodes as int,
    ) + keyed(",\"elapsedMs\":"@, e.elapsed_ms as int) + keyed(
        ",\"marginalNodes\":"@,
        e.marginal_nodes as int,
    ) + (",\"pv\":\""@ + escaped(e.pv@)) + "\"}"@
}

fn push_plain_entry(s: &mut String, e: &AceDepthLogEntry)
    ensures
        final(s)@ == old(s)@ + plain_entry_text(*e),
{
    push_keyed_signed(s, "{\"depth\":", e.depth);
    push_keyed_signed(s, ",\"score\":", e.score);
    push_keyed(s, ",\"nodes\":", e.nodes);
    push_keyed(s, ",\"elapsedMs\":", e.elapsed_ms);
    push_keyed(s, ",\"marginalNodes\":", e.marginal_nodes);
    push_text(s, ",\"pv\":\"");
    push_escaped(s, e.pv.as_str());
    push_text(s, "\"}");
    assert(s@ =~= old(s)@ + plain_entry_text(*e));
}

/// The first `n` lines, with commas between.
pub open spec fn plain_entries_text(log: Seq<AceDepthLogEntry>, n: int) -> Seq<char>
    decreases n,
{
    if n <= 0 {
        Seq::empty()
    } else if n == 1 {
        plain_entry_text(log[0])
    } else {
        plain_entries_text(log, n - 1).push(',') + plain_entry_text(log[n - 1])
    }
}

/// What a search for a single move came to, as a line of JSON.
pub open spec fn result_text(label: Seq<char>, r: ThinkResult) -> Seq<char> {
    ("info json {\"engine\":\""@ + label) + ("\",\"stoppedBy\":\""@ + label) + keyed(
        "\",\"searchDepth\":"@,
        r.depth as int,
    ) + keyed(",\"nodes\":"@, r.nodes as int) + keyed(",\"rootScore\":"@, r.score as int) + keyed(
        ",\"whiteDist\":"@,
        r.white_dist as int,
    ) + keyed(",\"blackDist\":"@, r.black_dist as int) + keyed(",\"elapsedMs\":"@, r.ms as int) + (
    ",\"depthLog\":["@ + plain_entries_text(r.depth_log@, r.depth_log@.len() as int)) + "]}"@
}

/// What a search for a single move came to, as a line of JSON.
pub fn result_json(label: &str, r: &ThinkResult) -> (t: String)
    ensures
        t@ == result_text(label@, *r),
{
    let mut list: String = String::new();
    let n: usize = r.depth_log.len();
    let mut i: usize = 0;
    assert(list@ =~= plain_entries_text(r.depth_log@, 0));
    while i < n
        invariant
            i <= n,
            n == r.depth_log@.len(),
            list@ == plain_entries_text(r.depth_log@, i as int),
        decreases n - i,
    {
        if i > 0 {
            list.push(',');
        }
        push_plain_entry(&mut list, &r.depth_log[i]);
        assert(list@ =~= plain_entries_text(r.depth_log@, i + 1));
        i += 1;
    }
    let mut s: String = String::new();
    push_keyed_text(&mut s, "info json {\"engine\":\"", label);
    push_keyed_text(&mut s, "\",\"stoppedBy\":\"", label);
    push_keyed_signed(&mut s, "\",\"searchDepth\":", r.depth);
    push_keyed(&mut s, ",\"nodes\":", r.nodes);
    push_keyed_signed(&mut s, ",\"rootScore\":", r.score);
    push_keyed(&mut s, ",\"whiteDist\":", r.white_dist as u64);
    push_keyed(&mut s, ",\"blackDist\":", r.black_dist as u64);
    push_keyed(&mut s, ",\"elapsedMs\":", r.ms);
    push_keyed_text(&mut s, ",\"depthLog\":[", list.as_str());
    push_text(&mut s, "]}");
    assert(s@ =~= result_text(label@, *r));
    s
}

/// The text of a score tells its sign and its plies: a mate score counted from
/// the root, and a race score, read back as the plies they were made from.
pub proof fn lemma_label_tells_the_plies(n: int)
    requires
        1 <= n <= 1_000,
    ensures
        label_text(MATE - n) == "mate in "@ + integer(n),
        label_text(-(MATE - n)) == "mated in "@ + integer(n),
        label_text(RACE_MATE - n) == "race win in "@ + integer(n),
        label_text(-(RACE_MATE - n)) == "race loss in "@ + integer(n),
{
}

/// Every other score is told as it is.
pub proof fn lemma_label_tells_the_score(score: int)
    requires
        -(RACE_MATE - 1_000) < score < RACE_MATE - 1_000 || RACE_MATE < score < MATE - 1_000 || -(
        MATE - 1_000) < score < -RACE_MATE,
    ensures
        label_text(score) == "cp "@ + integer(score),
{
}

} // verus!
