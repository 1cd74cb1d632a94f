//! Registering challenges, deciding submissions, and ranking.

use vstd::prelude::*;
use crate::challenge::{Challenge, Submission, SubmissionView};
use crate::parser::{extract_content, lines_view, spec_extract};
use crate::store::{create, id_of};
use crate::text::{chars_of, collect_range};

verus! {

/// Why a request was turned down or aborted.
#[derive(Debug)]
pub enum EngineError {
    /// The parsed input or output block was empty.
    EmptyChallengeContent,
    /// No challenge lives under the requested id, or none exists at all.
    ChallengeNotFound,
    /// A durable read or write failed.
    PersistenceFailure,
    /// The editor process could not be launched.
    EditorSpawnFailure,
    /// A protocol call to the editor failed or disconnected.
    RpcFailure,
    /// Feeding the keys exceeded the deadline; the editor was killed.
    VerificationTimeout,
}

/// The outcome of judging one attempt: the score of an accepted attempt, or
/// the actual buffer lines and any runtime error text of a rejected one.
pub enum SubmissionResult {
    Accepted(usize),
    Rejected(Vec<String>, String),
}

/// Registers a new challenge from the lines of a submitted text: parses it,
/// rejects it when either extracted block is empty, and otherwise builds the
/// challenge record to be persisted.
pub fn register(lines: &Vec<String>, author: &String, timestamp: i64) -> (r: Result<
    Challenge,
    EngineError,
>)
    ensures
        ({
            let (title, input, output) = spec_extract(lines_view(lines@));
            match r {
                Ok(c) => {
                    &&& input.content.len() > 0
                    &&& output.content.len() > 0
                    &&& c@.id == id_of(author@, timestamp as int, title)
                    &&& c@.title == title
                    &&& c@.input == input
                    &&& c@.output == output
                    &&& c@.created_at == timestamp as int
                    &&& c@.submissions == Seq::<SubmissionView>::empty()
                    &&& c.well_formed()
                },
                Err(e) => {
                    &&& (input.content.len() == 0 || output.content.len() == 0)
                    &&& e == EngineError::EmptyChallengeContent
                },
            }
        }),
{
    let (title, input, output) = extract_content(lines);
    if input.content.len() == 0 || output.content.len() == 0 {
        proof {
            assert(input@.content.len() == 0 ==> spec_extract(
                lines_view(lines@),
            ).1.content.len() == 0);
        }
        Err(EngineError::EmptyChallengeContent)
    } else {
        Ok(create(title, input, output, author, timestamp))
    }
}

/// One layer of literal backtick quoting removed, each end on its own.
pub open spec fn strip_prefix_backtick(s: Seq<char>) -> Seq<char> {
    if s.len() > 0 && s[0] == '`' {
        s.drop_first()
    } else {
        s
    }
}

pub open spec fn strip_suffix_backtick(s: Seq<char>) -> Seq<char> {
    if s.len() > 0 && s.last() == '`' {
        s.drop_last()
    } else {
        s
    }
}

pub open spec fn stripped_keys(s: Seq<char>) -> Seq<char> {
    strip_suffix_backtick(strip_prefix_backtick(s))
}

/// Removes one surrounding layer of backtick quoting from submitted keys.
pub fn strip_backticks(s: &String) -> (r: String)
    ensures
        r@ == stripped_keys(s@),
{
    let v = chars_of(s.as_str());
    let n = v.len();
    let from: usize = if n > 0 && v[0] == '`' {
        1
    } else {
        0
    };
    let to: usize = if n > from && v[n - 1] == '`' {
        n - 1
    } else {
        n
    };
    proof {
        assert(strip_prefix_backtick(s@) =~= v@.subrange(from as int, n as int));
        assert(stripped_keys(s@) =~= v@.subrange(from as int, to as int));
    }
    collect_range(&v, from, to)
}

/// Whether two line sequences are equal, line for line, byte for byte.
pub fn lines_equal(a: &Vec<String>, b: &Vec<String>) -> (r: bool)
    ensures
        r == (lines_view(a@) == lines_view(b@)),
{
    if a.len() != b.len() {
        proof {
            assert(lines_view(a@).len() != lines_view(b@).len());
        }
        return false;
    }
    let n = a.len();
    let mut i: usize = 0;
    while i < n
        invariant
            i <= n,
            n == a@.len() == b@.len(),
            forall|j: int| 0 <= j < i ==> lines_view(a@)[j] == lines_view(b@)[j],
        decreases n - i,
    {
        if !(a[i] == b[i]) {
            proof {
                assert(lines_view(a@)[i as int] != lines_view(b@)[i as int]);
            }
            return false;
        }
        i = i + 1;
    }
    proof {
        assert(lines_view(a@) =~= lines_view(b@));
    }
    true
}

/// The byte length of a string's UTF-8 form: what an accepted attempt
/// scores.
pub open spec fn byte_len(s: Seq<char>) -> nat {
    vstd::utf8::encode_utf8(s).len()
}

/// Decides one attempt once the editor has run the keys.
///
/// `keys` is the literal text the candidate submitted (quoting already
/// stripped); `translated` is the raw key sequence the editor actually
/// executed; `out_lines` is the buffer after execution; `errmsg` is the
/// editor's last runtime error message. On an exact match with the target
/// buffer the attempt is accepted with the byte length of the translated
/// keys as its score and the ledger grows by exactly that entry; otherwise
/// the attempt is rejected and the challenge is left untouched.
pub fn judge_submission(
    chall: &mut Challenge,
    author: String,
    keys: String,
    translated: &String,
    out_lines: Vec<String>,
    errmsg: String,
) -> (r: SubmissionResult)
    ensures
        match r {
            SubmissionResult::Accepted(score) => {
                &&& lines_view(out_lines@) == old(chall)@.output.content
                &&& score == byte_len(translated@)
                &&& final(chall)@.submissions == old(chall)@.submissions.push(
                    SubmissionView { author: author@, keys: keys@, score: byte_len(translated@) as int },
                )
                &&& final(chall)@.id == old(chall)@.id
                &&& final(chall)@.title == old(chall)@.title
                &&& final(chall)@.input == old(chall)@.input
                &&& final(chall)@.output == old(chall)@.output
                &&& final(chall)@.created_at == old(chall)@.created_at
            },
            SubmissionResult::Rejected(lines, error) => {
                &&& lines_view(out_lines@) != old(chall)@.output.content
                &&& lines_view(lines@) == lines_view(out_lines@)
                &&& error@ == errmsg@
                &&& *final(chall) == *old(chall)
            },
        },
{
    if lines_equal(&out_lines, &chall.output.content) {
        let score = translated.as_str().as_bytes().len();
        chall.add_submission(author, keys, score);
        SubmissionResult::Accepted(score)
    } else {
        SubmissionResult::Rejected(out_lines, errmsg)
    }
}

/// Inserting into a score-sorted sequence, after any equal scores.
pub open spec fn insert_sorted(s: Seq<SubmissionView>, x: SubmissionView) -> Seq<SubmissionView>
    decreases s.len(),
{
    if s.len() == 0 {
        seq![x]
    } else if x.score < s[0].score {
        seq![x] + s
    } else {
        seq![s[0]] + insert_sorted(s.drop_first(), x)
    }
}

/// Stable sort ascending by score: entries with equal scores keep their
/// insertion order.
pub open spec fn sort_by_score(s: Seq<SubmissionView>) -> Seq<SubmissionView>
    decreases s.len(),
{
    if s.len() == 0 {
        s
    } else {
        insert_sorted(sort_by_score(s.drop_last()), s.last())
    }
}

pub open spec fn subs_view(s: Seq<Submission>) -> Seq<SubmissionView> {
    s.map_values(|x: Submission| x@)
}

proof fn lemma_insert_at(s: Seq<SubmissionView>, x: SubmissionView, i: int)
    requires
        0 <= i <= s.len(),
        forall|j: int| 0 <= j < i ==> s[j].score <= x.score,
        i < s.len() ==> x.score < s[i].score,
    ensures
        insert_sorted(s, x) == s.subrange(0, i) + seq![x] + s.skip(i),
    decreases i,
{
    if i == 0 {
        if s.len() == 0 {
            assert(insert_sorted(s, x) =~= s.subrange(0, 0) + seq![x] + s.skip(0));
        } else {
            assert(insert_sorted(s, x) =~= s.subrange(0, 0) + seq![x] + s.skip(0));
        }
    } else {
        lemma_insert_at(s.drop_first(), x, i - 1);
        assert(s.drop_first().subrange(0, i - 1) =~= s.subrange(1, i));
        assert(s.drop_first().skip(i - 1) =~= s.skip(i));
        assert(insert_sorted(s, x) =~= s.subrange(0, i) + seq![x] + s.skip(i));
    }
}

/// Inserts a submission into a score-sorted vector, after any equal scores.
fn insert_by_score(v: &mut Vec<Submission>, x: Submission)
    ensures
        subs_view(final(v)@) == insert_sorted(subs_view(old(v)@), x@),
{
    let ghost s = subs_view(v@);
    let n = v.len();
    let mut i: usize = 0;
    while i < n && v[i].score <= x.score
        invariant
            i <= n,
            n == v@.len(),
            s == subs_view(v@),
            forall|j: int| 0 <= j < i ==> s[j].score <= x.score,
        decreases n - i,
    {
        i = i + 1;
    }
    proof {
        lemma_insert_at(s, x@, i as int);
    }
    v.insert(i, x);
    proof {
        assert(subs_view(final(v)@) =~= s.subrange(0, i as int) + seq![x@] + s.skip(i as int));
    }
}

/// A copy of the submissions, stably sorted ascending by score.
pub fn sorted_submissions(subs: &Vec<Submission>) -> (r: Vec<Submission>)
    ensures
        subs_view(r@) == sort_by_score(subs_view(subs@)),
{
    let mut out: Vec<Submission> = Vec::new();
    let n = subs.len();
    let mut k: usize = 0;
    proof {
        assert(subs_view(out@) =~= Seq::<SubmissionView>::empty());
        assert(subs_view(subs@.subrange(0, 0)) =~= Seq::<SubmissionView>::empty());
    }
    while k < n
        invariant
            k <= n,
            n == subs@.len(),
            subs_view(out@) == sort_by_score(subs_view(subs@.subrange(0, k as int))),
        decreases n - k,
    {
        insert_by_score(&mut out, subs[k].duplicate());
        k = k + 1;
        proof {
            let pre = subs_view(subs@.subrange(0, k as int - 1));
            let cur = subs_view(subs@.subrange(0, k as int));
            assert(cur.drop_last() =~= pre);
            assert(cur.last() == subs@[k as int - 1]@);
        }
    }
    proof {
        assert(subs@.subrange(0, n as int) =~= subs@);
    }
    out
}

/// The final ranking of a closed challenge: its submissions stably sorted
/// ascending by score, the best five kept.
pub fn close_ranking(chall: &Challenge) -> (r: Vec<Submission>)
    ensures
        subs_view(r@) == sort_by_score(chall@.submissions).take(
            if chall@.submissions.len() < 5 {
                chall@.submissions.len() as int
            } else {
                5
            },
        ),
{
    proof {
        assert(subs_view(chall.submissions@) == chall@.submissions);
    }
    let mut sorted = sorted_submissions(&chall.submissions);
    let ghost full = sort_by_score(chall@.submissions);
    proof {
        lemma_sort_by_score_len(chall@.submissions);
        assert(full.take(full.len() as int) =~= full);
    }
    while sorted.len() > 5
        invariant
            sorted@.len() <= full.len(),
            sorted@.len() >= 5 || sorted@.len() == full.len(),
            subs_view(sorted@) == full.take(sorted@.len() as int),
            full.len() == chall@.submissions.len(),
        decreases sorted@.len(),
    {
        proof {
            assert(full.take(sorted@.len() as int).drop_last() =~= full.take(
                sorted@.len() as int - 1,
            ));
        }
        let ghost before = subs_view(sorted@);
        sorted.pop();
        proof {
            assert(subs_view(sorted@) =~= before.drop_last());
        }
    }
    sorted
}

proof fn lemma_sort_by_score_len(s: Seq<SubmissionView>)
    ensures
        sort_by_score(s).len() == s.len(),
    decreases s.len(),
{
    if s.len() > 0 {
        lemma_sort_by_score_len(s.drop_last());
        lemma_insert_len(sort_by_score(s.drop_last()), s.last());
    }
}

proof fn lemma_insert_len(s: Seq<SubmissionView>, x: SubmissionView)
    ensures
        insert_sorted(s, x).len() == s.len() + 1,
    decreases s.len(),
{
    if s.len() > 0 && !(x.score < s[0].score) {
        lemma_insert_len(s.drop_first(), x);
    }
}

/// Same-id work is serialized, so two accepted attempts against one
/// challenge append their entries one after the other: in either order both
/// end up in the ledger, none is lost, and no earlier entry moves.
pub proof fn lemma_no_submission_lost(
    subs: Seq<SubmissionView>,
    s1: SubmissionView,
    s2: SubmissionView,
)
    ensures
        subs.push(s1).push(s2).len() == subs.len() + 2,
        subs.push(s1).push(s2).contains(s1),
        subs.push(s1).push(s2).contains(s2),
        forall|i: int| 0 <= i < subs.len() ==> subs.push(s1).push(s2)[i] == subs[i],
{
    let r = subs.push(s1).push(s2);
    assert(r[subs.len() as int] == s1);
    assert(r[subs.len() as int + 1] == s2);
}

/// Ascending by score.
pub open spec fn score_sorted(s: Seq<SubmissionView>) -> bool {
    forall|i: int, j: int| 0 <= i < j < s.len() ==> s[i].score <= s[j].score
}

proof fn lemma_insert_keeps_sorted(s: Seq<SubmissionView>, x: SubmissionView)
    requires
        score_sorted(s),
    ensures
        score_sorted(insert_sorted(s, x)),
        insert_sorted(s, x).to_multiset() == s.to_multiset().insert(x),
    decreases s.len(),
{
    broadcast use vstd::seq_lib::group_to_multiset_ensures;

    if s.len() == 0 {
        assert(insert_sorted(s, x) =~= Seq::<SubmissionView>::empty().push(x));
        assert(s =~= Seq::<SubmissionView>::empty());
    } else if x.score < s[0].score {
        let r = seq![x] + s;
        assert forall|i: int, j: int| 0 <= i < j < r.len() implies r[i].score <= r[j].score by {
            if i == 0 {
                assert(r[j] == s[j - 1]);
                if j > 1 {
                    assert(s[0].score <= s[j - 1].score);
                }
            } else {
                assert(r[i] == s[i - 1] && r[j] == s[j - 1]);
            }
        }
        assert(r =~= s.insert(0, x));
    } else {
        let tail = s.drop_first();
        assert(score_sorted(tail));
        lemma_insert_keeps_sorted(tail, x);
        let ins = insert_sorted(tail, x);
        let r = seq![s[0]] + ins;
        assert(insert_sorted(s, x) == r);
        assert forall|k: int| 1 <= k < r.len() implies r[0].score <= (#[trigger] r[k]).score by {
            let e = ins[k - 1];
            assert(ins.contains(e));
            assert(ins.to_multiset().count(e) > 0);
            assert(tail.to_multiset().insert(x).count(e) > 0);
            if e == x {
                assert(r[0].score <= e.score);
            } else {
                assert(tail.to_multiset().count(e) > 0);
                assert(tail.contains(e));
                let m = choose|m: int| 0 <= m < tail.len() && tail[m] == e;
                assert(s[m + 1] == e);
                assert(s[0].score <= s[m + 1].score);
            }
        }
        assert forall|i: int, j: int| 0 <= i < j < r.len() implies r[i].score <= r[j].score by {
            if i > 0 {
                assert(r[i] == ins[i - 1] && r[j] == ins[j - 1]);
                assert(ins[i - 1].score <= ins[j - 1].score);
            }
        }
        assert(r =~= ins.insert(0, s[0]));
        assert(r.to_multiset() == ins.to_multiset().insert(s[0]));
        assert(s.drop_first().insert(0, s[0]) =~= s);
        assert(s.to_multiset() == tail.to_multiset().insert(s[0]));
        assert(tail.to_multiset().insert(x).insert(s[0]) =~= tail.to_multiset().insert(
            s[0],
        ).insert(x));
    }
}

/// The ranking really is a ranking: stably sorting by score yields a
/// sequence ascending in score that holds exactly the original entries.
pub proof fn lemma_sort_by_score_sorted(s: Seq<SubmissionView>)
    ensures
        score_sorted(sort_by_score(s)),
        sort_by_score(s).to_multiset() == s.to_multiset(),
    decreases s.len(),
{
    broadcast use vstd::seq_lib::group_to_multiset_ensures;

    if s.len() > 0 {
        let pre = s.drop_last();
        lemma_sort_by_score_sorted(pre);
        lemma_insert_keeps_sorted(sort_by_score(pre), s.last());
        assert(pre.push(s.last()) =~= s);
        assert(s.to_multiset() == pre.to_multiset().insert(s.last()));
    }
}

} // verus!
