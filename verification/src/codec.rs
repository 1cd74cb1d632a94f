//! The durable challenge record: a structured, human-readable text format
//! with a proved encode/decode round trip.
//!
//! A record is a sequence of newline-terminated fields. Inside a string
//! field, backslash and newline are escaped (`\\` and `\n`); numbers are
//! decimal, with a leading `-` for negative values; a list is its length
//! followed by that many fields.

use vstd::prelude::*;
use crate::challenge::{
    Challenge, ChallengeView, Submission, SubmissionView, TextBlock, TextBlockView,
};
use crate::numerals::{
    all_dec_digits, dec_digit_val, dec_of, dec_val, is_dec_digit, lemma_dec_roundtrip, u64_to_dec,
    dec_digit_val_exec,
};
use crate::store::{dec_of_int, i64_to_dec};
use crate::text::{chars_of, push_char};

verus! {

/// How one character stands in a field.
pub open spec fn esc_char(c: char) -> Seq<char> {
    if c == '\\' {
        seq!['\\', '\\']
    } else if c == '\n' {
        seq!['\\', 'n']
    } else {
        seq![c]
    }
}

/// A string with backslash and newline escaped.
pub open spec fn esc(s: Seq<char>) -> Seq<char>
    decreases s.len(),
{
    if s.len() == 0 {
        Seq::empty()
    } else {
        esc_char(s[0]) + esc(s.drop_first())
    }
}

/// One encoded string field: the escaped text and its newline terminator.
pub open spec fn enc_field(s: Seq<char>) -> Seq<char> {
    esc(s) + seq!['\n']
}

/// One encoded unsigned number field.
pub open spec fn enc_nat(n: nat) -> Seq<char> {
    dec_of(n) + seq!['\n']
}

/// One encoded signed number field.
pub open spec fn enc_int(n: int) -> Seq<char> {
    dec_of_int(n) + seq!['\n']
}

/// Reads one field: the unescaped text up to the terminator, and the rest.
pub open spec fn dec_field(s: Seq<char>) -> Option<(Seq<char>, Seq<char>)>
    decreases s.len(),
{
    if s.len() == 0 {
        None
    } else if s[0] == '\n' {
        Some((Seq::empty(), s.drop_first()))
    } else if s[0] == '\\' {
        if s.len() >= 2 && (s[1] == '\\' || s[1] == 'n') {
            let c = if s[1] == '\\' {
                '\\'
            } else {
                '\n'
            };
            match dec_field(s.skip(2)) {
                Some(p) => Some((seq![c] + p.0, p.1)),
                None => None,
            }
        } else {
            None
        }
    } else {
        match dec_field(s.drop_first()) {
            Some(p) => Some((seq![s[0]] + p.0, p.1)),
            None => None,
        }
    }
}

/// Reads one unsigned number field no greater than `bound`.
pub open spec fn dec_nat(s: Seq<char>, bound: nat) -> Option<(nat, Seq<char>)> {
    match dec_field(s) {
        Some(p) => {
            if p.0.len() >= 1 && all_dec_digits(p.0) && dec_val(p.0) <= bound {
                Some((dec_val(p.0) as nat, p.1))
            } else {
                None
            }
        },
        None => None,
    }
}

/// Reads one signed number field that fits the timestamp range.
pub open spec fn dec_int(s: Seq<char>) -> Option<(int, Seq<char>)> {
    match dec_field(s) {
        Some(p) => {
            if p.0.len() >= 1 && p.0[0] == '-' {
                let g = p.0.drop_first();
                if g.len() >= 1 && all_dec_digits(g) && -dec_val(g) >= i64::MIN {
                    Some((-dec_val(g), p.1))
                } else {
                    None
                }
            } else if p.0.len() >= 1 && all_dec_digits(p.0) && dec_val(p.0) <= i64::MAX {
                Some((dec_val(p.0), p.1))
            } else {
                None
            }
        },
        None => None,
    }
}

/// Projections of a successful field read.
pub open spec fn field_of(r: Option<(Seq<char>, Seq<char>)>) -> Seq<char> {
    (r->0).0
}

pub open spec fn rest_of(r: Option<(Seq<char>, Seq<char>)>) -> Seq<char> {
    (r->0).1
}

pub proof fn lemma_esc_push(s: Seq<char>, c: char)
    ensures
        esc(s.push(c)) == esc(s) + esc_char(c),
    decreases s.len(),
{
    if s.len() == 0 {
        assert(s.push(c) =~= seq![c]);
        assert(s.push(c).drop_first() =~= Seq::<char>::empty());
        assert(esc(s.push(c)) == esc_char(s.push(c)[0]) + esc(s.push(c).drop_first()));
        assert(esc(Seq::<char>::empty()) =~= Seq::<char>::empty());
        assert(esc(s) =~= Seq::<char>::empty());
        assert(s.push(c)[0] == c);
        assert(esc(s.push(c)) =~= esc(s) + esc_char(c));
    } else {
        lemma_esc_push(s.drop_first(), c);
        assert(esc(s.push(c)) == esc_char(s.push(c)[0]) + esc(s.push(c).drop_first()));
        assert(s.push(c).drop_first() =~= s.drop_first().push(c));
        assert(s.push(c)[0] == s[0]);
        assert(esc(s.push(c)) =~= esc(s) + esc_char(c));
    }
}

/// Escaping leaves a string free of unescaped special characters alone.
pub proof fn lemma_esc_identity(s: Seq<char>)
    requires
        forall|i: int| 0 <= i < s.len() ==> s[i] != '\\' && s[i] != '\n',
    ensures
        esc(s) == s,
    decreases s.len(),
{
    if s.len() > 0 {
        lemma_esc_identity(s.drop_first());
        assert(esc(s) =~= s);
    }
}

/// Reading an encoded field back yields the original and the untouched rest.
pub proof fn lemma_dec_enc_field(f: Seq<char>, rest: Seq<char>)
    ensures
        dec_field(enc_field(f) + rest) == Some((f, rest)),
    decreases f.len(),
{
    let s = enc_field(f) + rest;
    if f.len() == 0 {
        assert(esc(f) =~= Seq::<char>::empty());
        assert(s[0] == '\n');
        assert(s.drop_first() =~= rest);
        assert(dec_field(s) == Some((Seq::<char>::empty(), rest)));
        assert(field_of(dec_field(s)) =~= f);
        assert(dec_field(s) == Some((f, rest)));
    } else {
        let c = f[0];
        let f2 = f.drop_first();
        lemma_dec_enc_field(f2, rest);
        assert(esc(f) == esc_char(c) + esc(f2));
        if c == '\\' {
            assert(s[0] == '\\' && s[1] == '\\');
            assert(s.skip(2) =~= enc_field(f2) + rest);
            assert(dec_field(s) == Some((seq!['\\'] + f2, rest)));
            assert(seq!['\\'] + f2 =~= f);
        } else if c == '\n' {
            assert(s[0] == '\\' && s[1] == 'n');
            assert(s.skip(2) =~= enc_field(f2) + rest);
            assert(dec_field(s) == Some((seq!['\n'] + f2, rest)));
            assert(seq!['\n'] + f2 =~= f);
        } else {
            assert(s[0] == c);
            assert(s.drop_first() =~= enc_field(f2) + rest);
            assert(dec_field(s) == Some((seq![c] + f2, rest)));
            assert(seq![c] + f2 =~= f);
        }
    }
}

/// Reading an encoded unsigned number back yields the number.
pub proof fn lemma_dec_enc_nat(n: nat, bound: nat, rest: Seq<char>)
    requires
        n <= bound,
    ensures
        dec_nat(enc_nat(n) + rest, bound) == Some((n, rest)),
{
    lemma_dec_roundtrip(n);
    assert(forall|i: int|
        0 <= i < dec_of(n).len() ==> dec_of(n)[i] != '\\' && dec_of(n)[i] != '\n');
    lemma_esc_identity(dec_of(n));
    assert(enc_nat(n) =~= enc_field(dec_of(n)));
    assert(enc_nat(n) + rest =~= enc_field(dec_of(n)) + rest);
    lemma_dec_enc_field(dec_of(n), rest);
}

/// Reading an encoded signed number back yields the number.
pub proof fn lemma_dec_enc_int(n: int, rest: Seq<char>)
    requires
        i64::MIN <= n <= i64::MAX,
    ensures
        dec_int(enc_int(n) + rest) == Some((n, rest)),
{
    if n < 0 {
        let m = (-n) as nat;
        lemma_dec_roundtrip(m);
        let f = seq!['-'] + dec_of(m);
        assert(forall|i: int| 0 <= i < f.len() ==> f[i] != '\\' && f[i] != '\n');
        lemma_esc_identity(f);
        assert(enc_int(n) =~= enc_field(f));
        assert(enc_int(n) + rest =~= enc_field(f) + rest);
        lemma_dec_enc_field(f, rest);
        assert(f[0] == '-');
        assert(f.drop_first() =~= dec_of(m));
    } else {
        lemma_dec_roundtrip(n as nat);
        let f = dec_of(n as nat);
        assert(forall|i: int| 0 <= i < f.len() ==> f[i] != '\\' && f[i] != '\n');
        lemma_esc_identity(f);
        assert(enc_int(n) =~= enc_field(f));
        assert(enc_int(n) + rest =~= enc_field(f) + rest);
        lemma_dec_enc_field(f, rest);
        assert(is_dec_digit(f[0]));
        assert(f[0] != '-');
    }
}

/// Appends one encoded string field.
pub fn enc_field_exec(out: &mut String, s: &String)
    ensures
        final(out)@ == old(out)@ + enc_field(s@),
{
    let v = chars_of(s.as_str());
    let n = v.len();
    let mut i: usize = 0;
    proof {
        assert(esc(v@.subrange(0, 0)) =~= Seq::<char>::empty());
        assert(out@ =~= old(out)@ + esc(v@.subrange(0, 0)));
    }
    while i < n
        invariant
            i <= n,
            n == v@.len(),
            v@ == s@,
            out@ == old(out)@ + esc(v@.subrange(0, i as int)),
        decreases n - i,
    {
        let c = v[i];
        if c == '\\' {
            push_char(out, '\\');
            push_char(out, '\\');
        } else if c == '\n' {
            push_char(out, '\\');
            push_char(out, 'n');
        } else {
            push_char(out, c);
        }
        proof {
            lemma_esc_push(v@.subrange(0, i as int), c);
            assert(v@.subrange(0, i as int).push(c) =~= v@.subrange(0, i as int + 1));
            assert(out@ =~= old(out)@ + esc(v@.subrange(0, i as int + 1)));
        }
        i = i + 1;
    }
    push_char(out, '\n');
    proof {
        assert(v@.subrange(0, n as int) =~= s@);
        assert(out@ =~= old(out)@ + enc_field(s@));
    }
}

/// Appends one encoded unsigned number field.
pub fn enc_u64_exec(out: &mut String, n: u64)
    ensures
        final(out)@ == old(out)@ + enc_nat(n as nat),
{
    let digits = u64_to_dec(n);
    out.append(digits.as_str());
    push_char(out, '\n');
    proof {
        assert(out@ =~= old(out)@ + enc_nat(n as nat));
    }
}

/// Appends one encoded signed number field.
pub fn enc_i64_exec(out: &mut String, n: i64)
    ensures
        final(out)@ == old(out)@ + enc_int(n as int),
{
    let digits = i64_to_dec(n);
    out.append(digits.as_str());
    push_char(out, '\n');
    proof {
        assert(out@ =~= old(out)@ + enc_int(n as int));
    }
}

/// Reads one string field starting at `pos`.
pub fn dec_field_exec(v: &Vec<char>, pos: usize) -> (r: Option<(String, usize)>)
    requires
        pos <= v@.len(),
    ensures
        match r {
            Some(p) => {
                &&& pos <= p.1 <= v@.len()
                &&& dec_field(v@.skip(pos as int)) == Some((p.0@, v@.skip(p.1 as int)))
            },
            None => dec_field(v@.skip(pos as int)) is None,
        },
{
    let ghost orig = v@.skip(pos as int);
    let n = v.len();
    let mut cur: usize = pos;
    let mut acc = String::new();
    proof {
        assert(acc@ =~= Seq::<char>::empty());
        if dec_field(orig) is Some {
            assert(acc@ + field_of(dec_field(orig)) =~= field_of(dec_field(orig)));
        }
    }
    loop
        invariant
            pos <= cur <= n,
            n == v@.len(),
            orig == v@.skip(pos as int),
            dec_field(orig) is Some <==> dec_field(v@.skip(cur as int)) is Some,
            dec_field(orig) is Some ==> {
                &&& field_of(dec_field(orig)) == acc@ + field_of(dec_field(v@.skip(cur as int)))
                &&& rest_of(dec_field(orig)) == rest_of(dec_field(v@.skip(cur as int)))
            },
        decreases n - cur,
    {
        let ghost tail = v@.skip(cur as int);
        if cur >= n {
            proof {
                assert(tail.len() == 0);
            }
            return None;
        }
        let c = v[cur];
        proof {
            assert(tail[0] == v@[cur as int]);
        }
        if c == '\n' {
            proof {
                assert(dec_field(tail) == Some((Seq::<char>::empty(), tail.drop_first())));
                assert(acc@ + Seq::<char>::empty() =~= acc@);
                assert(tail.drop_first() =~= v@.skip(cur as int + 1));
                let dd = dec_field(orig);
                assert(dd is Some);
                assert(field_of(dd) == acc@);
                assert(rest_of(dd) == v@.skip(cur as int + 1));
                assert(dd == Some((field_of(dd), rest_of(dd))));
            }
            return Some((acc, cur + 1));
        } else if c == '\\' {
            if cur + 1 < n && (v[cur + 1] == '\\' || v[cur + 1] == 'n') {
                let d = if v[cur + 1] == '\\' {
                    '\\'
                } else {
                    '\n'
                };
                proof {
                    assert(tail.len() >= 2 && tail[1] == v@[cur as int + 1]);
                    assert(tail.skip(2) =~= v@.skip(cur as int + 2));
                    if dec_field(tail.skip(2)) is Some {
                        assert(acc@ + (seq![d] + field_of(dec_field(tail.skip(2)))) =~= acc@.push(
                            d,
                        ) + field_of(dec_field(tail.skip(2))));
                    }
                }
                push_char(&mut acc, d);
                cur = cur + 2;
            } else {
                proof {
                    if tail.len() >= 2 {
                        assert(tail[1] == v@[cur as int + 1]);
                    }
                    assert(dec_field(tail) is None);
                }
                return None;
            }
        } else {
            proof {
                assert(tail.drop_first() =~= v@.skip(cur as int + 1));
                if dec_field(tail.drop_first()) is Some {
                    assert(acc@ + (seq![c] + field_of(dec_field(tail.drop_first()))) =~= acc@.push(
                        c,
                    ) + field_of(dec_field(tail.drop_first())));
                }
            }
            push_char(&mut acc, c);
            cur = cur + 1;
        }
    }
}

proof fn lemma_dec_val_nonneg(s: Seq<char>)
    requires
        all_dec_digits(s),
    ensures
        dec_val(s) >= 0,
    decreases s.len(),
{
    if s.len() > 0 {
        assert(all_dec_digits(s.drop_last()));
        lemma_dec_val_nonneg(s.drop_last());
    }
}

proof fn lemma_dec_val_take(s: Seq<char>, i: int)
    requires
        all_dec_digits(s),
        0 <= i <= s.len(),
    ensures
        dec_val(s.take(i)) <= dec_val(s),
    decreases s.len() - i,
{
    if i < s.len() {
        lemma_dec_val_take(s, i + 1);
        assert(s.take(i + 1).drop_last() =~= s.take(i));
        assert(all_dec_digits(s.take(i)));
        lemma_dec_val_nonneg(s.take(i));
        assert(dec_val(s.take(i + 1)) == dec_val(s.take(i)) * 10 + dec_digit_val(s[i]));
        assert(dec_val(s.take(i)) * 10 >= dec_val(s.take(i))) by (nonlinear_arith)
            requires dec_val(s.take(i)) >= 0;
    } else {
        assert(s.take(i) =~= s);
    }
}

/// Reads the value of a digit string, refusing anything over `bound`.
fn dec_val_checked(f: &String, bound: u64) -> (r: Option<u64>)
    ensures
        match r {
            Some(x) => {
                &&& f@.len() >= 1
                &&& all_dec_digits(f@)
                &&& dec_val(f@) == x
                &&& x <= bound
            },
            None => !(f@.len() >= 1 && all_dec_digits(f@) && dec_val(f@) <= bound),
        },
{
    let v = chars_of(f.as_str());
    let n = v.len();
    if n == 0 {
        return None;
    }
    let mut acc: u64 = 0;
    let mut i: usize = 0;
    proof {
        assert(v@.take(0) =~= Seq::<char>::empty());
    }
    while i < n
        invariant
            i <= n,
            n == v@.len(),
            v@ == f@,
            all_dec_digits(v@.take(i as int)),
            acc == dec_val(v@.take(i as int)),
            acc <= bound,
        decreases n - i,
    {
        let c = v[i];
        if !('0' <= c && c <= '9') {
            return None;
        }
        let d = dec_digit_val_exec(c);
        proof {
            assert(v@.take(i as int + 1).drop_last() =~= v@.take(i as int));
            assert(all_dec_digits(v@.take(i as int + 1)));
        }
        if d > bound {
            proof {
                assert(acc * 10 >= 0) by (nonlinear_arith)
                    requires acc >= 0;
                assert(dec_val(v@.take(i as int + 1)) > bound);
                if all_dec_digits(v@) {
                    lemma_dec_val_take(v@, i as int + 1);
                }
            }
            return None;
        }
        proof {
            vstd::arithmetic::div_mod::lemma_fundamental_div_mod((bound - d) as int, 10);
        }
        if acc > (bound - d) / 10 {
            proof {
                assert(acc * 10 + d > bound) by (nonlinear_arith)
                    requires
                        acc > (bound - d) as int / 10,
                        (bound - d) as int == 10 * ((bound - d) as int / 10) + (bound - d) as int
                            % 10,
                        0 <= (bound - d) as int % 10 < 10,
                        0 <= d <= bound,
                ;
                assert(dec_val(v@.take(i as int + 1)) > bound);
                if all_dec_digits(v@) {
                    lemma_dec_val_take(v@, i as int + 1);
                }
            }
            return None;
        }
        proof {
            assert(acc * 10 + d <= bound) by (nonlinear_arith)
                requires
                    acc <= (bound - d) / 10,
                    (bound - d) as int == 10 * ((bound - d) as int / 10) + (bound - d) as int % 10,
                    0 <= (bound - d) as int % 10 < 10,
                    d <= bound,
                    0 <= d,
                    0 <= acc,
            ;
        }
        acc = acc * 10 + d;
        i = i + 1;
    }
    proof {
        assert(v@.take(n as int) =~= v@);
    }
    Some(acc)
}

/// Reads one unsigned number field no greater than `bound`.
pub fn dec_nat_exec(v: &Vec<char>, pos: usize, bound: u64) -> (r: Option<(u64, usize)>)
    requires
        pos <= v@.len(),
    ensures
        match r {
            Some(p) => {
                &&& pos <= p.1 <= v@.len()
                &&& dec_nat(v@.skip(pos as int), bound as nat) == Some((
                    p.0 as nat,
                    v@.skip(p.1 as int),
                ))
            },
            None => dec_nat(v@.skip(pos as int), bound as nat) is None,
        },
{
    match dec_field_exec(v, pos) {
        None => None,
        Some((f, p)) => {
            match dec_val_checked(&f, bound) {
                None => None,
                Some(x) => Some((x, p)),
            }
        },
    }
}

/// Reads one signed number field in the timestamp range.
pub fn dec_int_exec(v: &Vec<char>, pos: usize) -> (r: Option<(i64, usize)>)
    requires
        pos <= v@.len(),
    ensures
        match r {
            Some(p) => {
                &&& pos <= p.1 <= v@.len()
                &&& dec_int(v@.skip(pos as int)) == Some((p.0 as int, v@.skip(p.1 as int)))
            },
            None => dec_int(v@.skip(pos as int)) is None,
        },
{
    match dec_field_exec(v, pos) {
        None => None,
        Some((f, p)) => {
            let fv = chars_of(f.as_str());
            if fv.len() >= 1 && fv[0] == '-' {
                let g = crate::text::collect_range(&fv, 1, fv.len());
                proof {
                    assert(g@ =~= f@.drop_first());
                }
                match dec_val_checked(&g, 9223372036854775808u64) {
                    None => None,
                    Some(x) => {
                        let val: i64 = if x == 9223372036854775808u64 {
                            i64::MIN
                        } else {
                            -(x as i64)
                        };
                        proof {
                            assert(val as int == -(x as int));
                        }
                        Some((val, p))
                    },
                }
            } else {
                proof {
                    if f@.len() >= 1 {
                        assert(f@[0] != '-');
                    }
                }
                match dec_val_checked(&f, 9223372036854775807u64) {
                    None => None,
                    Some(x) => Some((x as i64, p)),
                }
            }
        },
    }
}

/// An encoded optional language tag: a presence flag, then the tag.
pub open spec fn enc_opt_str(o: Option<Seq<char>>) -> Seq<char> {
    match o {
        None => enc_nat(0),
        Some(l) => enc_nat(1) + enc_field(l),
    }
}

/// Encoded lines, one field each.
pub open spec fn enc_lines(ls: Seq<Seq<char>>) -> Seq<char>
    decreases ls.len(),
{
    if ls.len() == 0 {
        Seq::empty()
    } else {
        enc_field(ls[0]) + enc_lines(ls.drop_first())
    }
}

/// An encoded text block: language, line count, lines.
pub open spec fn enc_block(b: TextBlockView) -> Seq<char> {
    enc_opt_str(b.language) + enc_nat(b.content.len()) + enc_lines(b.content)
}

/// An encoded submission: author, keys, score.
pub open spec fn enc_sub(x: SubmissionView) -> Seq<char> {
    enc_field(x.author) + enc_field(x.keys) + enc_nat(x.score as nat)
}

pub open spec fn enc_subs(s: Seq<SubmissionView>) -> Seq<char>
    decreases s.len(),
{
    if s.len() == 0 {
        Seq::empty()
    } else {
        enc_sub(s[0]) + enc_subs(s.drop_first())
    }
}

/// The whole durable record of a challenge.
pub open spec fn encode_challenge(c: ChallengeView) -> Seq<char> {
    enc_field(c.id) + enc_field(c.title) + enc_int(c.created_at) + enc_block(c.input) + enc_block(
        c.output,
    ) + enc_nat(c.submissions.len()) + enc_subs(c.submissions)
}

/// The bounds under which a record value can be written at all; the view of
/// every machine-level challenge satisfies them.
pub open spec fn encodable(c: ChallengeView) -> bool {
    &&& i64::MIN <= c.created_at <= i64::MAX
    &&& c.input.content.len() <= u64::MAX
    &&& c.output.content.len() <= u64::MAX
    &&& c.submissions.len() <= u64::MAX
    &&& forall|i: int|
        0 <= i < c.submissions.len() ==> 0 <= (#[trigger] c.submissions[i]).score <= usize::MAX
}

pub open spec fn dec_opt_str(s: Seq<char>) -> Option<(Option<Seq<char>>, Seq<char>)> {
    match dec_nat(s, u64::MAX as nat) {
        Some(p) => {
            if p.0 == 0 {
                Some((None, p.1))
            } else if p.0 == 1 {
                match dec_field(p.1) {
                    Some(q) => Some((Some(q.0), q.1)),
                    None => None,
                }
            } else {
                None
            }
        },
        None => None,
    }
}

pub open spec fn dec_lines(s: Seq<char>, n: nat) -> Option<(Seq<Seq<char>>, Seq<char>)>
    decreases n,
{
    if n == 0 {
        Some((Seq::empty(), s))
    } else {
        match dec_field(s) {
            Some(p) => {
                match dec_lines(p.1, (n - 1) as nat) {
                    Some(q) => Some((seq![p.0] + q.0, q.1)),
                    None => None,
                }
            },
            None => None,
        }
    }
}

pub open spec fn dec_block(s: Seq<char>) -> Option<(TextBlockView, Seq<char>)> {
    match dec_opt_str(s) {
        Some(p) => {
            match dec_nat(p.1, u64::MAX as nat) {
                Some(q) => {
                    match dec_lines(q.1, q.0) {
                        Some(r) => Some((TextBlockView { language: p.0, content: r.0 }, r.1)),
                        None => None,
                    }
                },
                None => None,
            }
        },
        None => None,
    }
}

pub open spec fn dec_sub(s: Seq<char>) -> Option<(SubmissionView, Seq<char>)> {
    match dec_field(s) {
        Some(a) => {
            match dec_field(a.1) {
                Some(k) => {
                    match dec_nat(k.1, usize::MAX as nat) {
                        Some(sc) => Some(
                            (
                                SubmissionView { author: a.0, keys: k.0, score: sc.0 as int },
                                sc.1,
                            ),
                        ),
                        None => None,
                    }
                },
                None => None,
            }
        },
        None => None,
    }
}

pub open spec fn dec_subs(s: Seq<char>, n: nat) -> Option<(Seq<SubmissionView>, Seq<char>)>
    decreases n,
{
    if n == 0 {
        Some((Seq::empty(), s))
    } else {
        match dec_sub(s) {
            Some(p) => {
                match dec_subs(p.1, (n - 1) as nat) {
                    Some(q) => Some((seq![p.0] + q.0, q.1)),
                    None => None,
                }
            },
            None => None,
        }
    }
}

/// Reads a whole record back; trailing text makes the record invalid.
pub open spec fn decode_challenge(s: Seq<char>) -> Option<ChallengeView> {
    match dec_field(s) {
        Some(id) => match dec_field(id.1) {
            Some(t) => match dec_int(t.1) {
                Some(ca) => match dec_block(ca.1) {
                    Some(inp) => match dec_block(inp.1) {
                        Some(out) => match dec_nat(out.1, u64::MAX as nat) {
                            Some(cnt) => match dec_subs(cnt.1, cnt.0) {
                                Some(subs) => {
                                    if subs.1.len() == 0 {
                                        Some(
                                            ChallengeView {
                                                id: id.0,
                                                title: t.0,
                                                created_at: ca.0,
                                                input: inp.0,
                                                output: out.0,
                                                submissions: subs.0,
                                            },
                                        )
                                    } else {
                                        None
                                    }
                                },
                                None => None,
                            },
                            None => None,
                        },
                        None => None,
                    },
                    None => None,
                },
                None => None,
            },
            None => None,
        },
        None => None,
    }
}

pub proof fn lemma_dec_enc_opt(o: Option<Seq<char>>, rest: Seq<char>)
    ensures
        dec_opt_str(enc_opt_str(o) + rest) == Some((o, rest)),
{
    match o {
        None => {
            lemma_dec_enc_nat(0, u64::MAX as nat, rest);
        },
        Some(l) => {
            assert(enc_opt_str(o) + rest =~= enc_nat(1) + (enc_field(l) + rest));
            lemma_dec_enc_nat(1, u64::MAX as nat, enc_field(l) + rest);
            lemma_dec_enc_field(l, rest);
        },
    }
}

pub proof fn lemma_dec_enc_lines(ls: Seq<Seq<char>>, rest: Seq<char>)
    ensures
        dec_lines(enc_lines(ls) + rest, ls.len()) == Some((ls, rest)),
    decreases ls.len(),
{
    if ls.len() == 0 {
        assert(enc_lines(ls) + rest =~= rest);
        assert(dec_lines(rest, 0) == Some((Seq::<Seq<char>>::empty(), rest)));
        assert(ls =~= Seq::<Seq<char>>::empty());
    } else {
        let tail = ls.drop_first();
        lemma_dec_enc_lines(tail, rest);
        assert(enc_lines(ls) + rest =~= enc_field(ls[0]) + (enc_lines(tail) + rest));
        lemma_dec_enc_field(ls[0], enc_lines(tail) + rest);
        assert(seq![ls[0]] + tail =~= ls);
    }
}

pub proof fn lemma_dec_enc_block(b: TextBlockView, rest: Seq<char>)
    requires
        b.content.len() <= u64::MAX,
    ensures
        dec_block(enc_block(b) + rest) == Some((b, rest)),
{
    let after_opt = enc_nat(b.content.len()) + enc_lines(b.content) + rest;
    assert(enc_block(b) + rest =~= enc_opt_str(b.language) + after_opt);
    lemma_dec_enc_opt(b.language, after_opt);
    assert(after_opt =~= enc_nat(b.content.len()) + (enc_lines(b.content) + rest));
    lemma_dec_enc_nat(b.content.len(), u64::MAX as nat, enc_lines(b.content) + rest);
    lemma_dec_enc_lines(b.content, rest);
    assert((TextBlockView { language: b.language, content: b.content }) =~= b);
}

pub proof fn lemma_dec_enc_sub(x: SubmissionView, rest: Seq<char>)
    requires
        0 <= x.score <= usize::MAX,
    ensures
        dec_sub(enc_sub(x) + rest) == Some((x, rest)),
{
    let after_a = enc_field(x.keys) + enc_nat(x.score as nat) + rest;
    assert(enc_sub(x) + rest =~= enc_field(x.author) + after_a);
    lemma_dec_enc_field(x.author, after_a);
    assert(after_a =~= enc_field(x.keys) + (enc_nat(x.score as nat) + rest));
    lemma_dec_enc_field(x.keys, enc_nat(x.score as nat) + rest);
    lemma_dec_enc_nat(x.score as nat, usize::MAX as nat, rest);
    assert((SubmissionView { author: x.author, keys: x.keys, score: x.score }) =~= x);
}

pub proof fn lemma_dec_enc_subs(s: Seq<SubmissionView>, rest: Seq<char>)
    requires
        forall|i: int| 0 <= i < s.len() ==> 0 <= (#[trigger] s[i]).score <= usize::MAX,
    ensures
        dec_subs(enc_subs(s) + rest, s.len()) == Some((s, rest)),
    decreases s.len(),
{
    if s.len() == 0 {
        assert(enc_subs(s) + rest =~= rest);
        assert(s =~= Seq::<SubmissionView>::empty());
    } else {
        let tail = s.drop_first();
        lemma_dec_enc_subs(tail, rest);
        assert(enc_subs(s) + rest =~= enc_sub(s[0]) + (enc_subs(tail) + rest));
        lemma_dec_enc_sub(s[0], enc_subs(tail) + rest);
        assert(seq![s[0]] + tail =~= s);
    }
}

/// The round trip: a record read back from its encoding is the record.
pub proof fn lemma_encode_decode(c: ChallengeView)
    requires
        encodable(c),
    ensures
        decode_challenge(encode_challenge(c)) == Some(c),
{
    let empty = Seq::<char>::empty();
    let r6 = enc_subs(c.submissions);
    let r5 = enc_nat(c.submissions.len()) + r6;
    let r4 = enc_block(c.output) + r5;
    let r3 = enc_block(c.input) + r4;
    let r2 = enc_int(c.created_at) + r3;
    let r1 = enc_field(c.title) + r2;
    assert(encode_challenge(c) =~= enc_field(c.id) + r1);
    lemma_dec_enc_field(c.id, r1);
    lemma_dec_enc_field(c.title, r2);
    lemma_dec_enc_int(c.created_at, r3);
    lemma_dec_enc_block(c.input, r4);
    lemma_dec_enc_block(c.output, r5);
    lemma_dec_enc_nat(c.submissions.len(), u64::MAX as nat, r6);
    assert(r6 =~= enc_subs(c.submissions) + empty);
    lemma_dec_enc_subs(c.submissions, empty);
    let rebuilt = ChallengeView {
        id: c.id,
        title: c.title,
        created_at: c.created_at,
        input: c.input,
        output: c.output,
        submissions: c.submissions,
    };
    assert(rebuilt =~= c);
}

proof fn lemma_enc_lines_push(ls: Seq<Seq<char>>, x: Seq<char>)
    ensures
        enc_lines(ls.push(x)) == enc_lines(ls) + enc_field(x),
    decreases ls.len(),
{
    if ls.len() == 0 {
        assert(ls.push(x).drop_first() =~= Seq::<Seq<char>>::empty());
        assert(enc_lines(ls.push(x)) == enc_field(ls.push(x)[0]) + enc_lines(
            ls.push(x).drop_first(),
        ));
        assert(enc_lines(ls.push(x)) =~= enc_lines(ls) + enc_field(x));
    } else {
        lemma_enc_lines_push(ls.drop_first(), x);
        assert(enc_lines(ls.push(x)) == enc_field(ls.push(x)[0]) + enc_lines(
            ls.push(x).drop_first(),
        ));
        assert(ls.push(x).drop_first() =~= ls.drop_first().push(x));
        assert(ls.push(x)[0] == ls[0]);
        assert(enc_lines(ls.push(x)) =~= enc_lines(ls) + enc_field(x));
    }
}

proof fn lemma_enc_subs_push(s: Seq<SubmissionView>, x: SubmissionView)
    ensures
        enc_subs(s.push(x)) == enc_subs(s) + enc_sub(x),
    decreases s.len(),
{
    if s.len() == 0 {
        assert(s.push(x).drop_first() =~= Seq::<SubmissionView>::empty());
        assert(enc_subs(s.push(x)) == enc_sub(s.push(x)[0]) + enc_subs(s.push(x).drop_first()));
        assert(enc_subs(s.push(x)) =~= enc_subs(s) + enc_sub(x));
    } else {
        lemma_enc_subs_push(s.drop_first(), x);
        assert(enc_subs(s.push(x)) == enc_sub(s.push(x)[0]) + enc_subs(s.push(x).drop_first()));
        assert(s.push(x).drop_first() =~= s.drop_first().push(x));
        assert(s.push(x)[0] == s[0]);
        assert(enc_subs(s.push(x)) =~= enc_subs(s) + enc_sub(x));
    }
}

/// Appends the encoding of one text block.
fn enc_block_exec(out: &mut String, b: &TextBlock)
    ensures
        final(out)@ == old(out)@ + enc_block(b@),
{
    match &b.language {
        None => {
            enc_u64_exec(out, 0);
        },
        Some(l) => {
            enc_u64_exec(out, 1);
            enc_field_exec(out, l);
        },
    }
    enc_u64_exec(out, b.content.len() as u64);
    let ghost base = out@;
    let n = b.content.len();
    let mut i: usize = 0;
    proof {
        assert(b@.content.take(0) =~= Seq::<Seq<char>>::empty());
        assert(out@ =~= base + enc_lines(b@.content.take(0)));
    }
    while i < n
        invariant
            i <= n,
            n == b.content@.len(),
            b@.content.len() == n,
            out@ == base + enc_lines(b@.content.take(i as int)),
        decreases n - i,
    {
        enc_field_exec(out, &b.content[i]);
        proof {
            lemma_enc_lines_push(b@.content.take(i as int), b@.content[i as int]);
            assert(b@.content.take(i as int).push(b@.content[i as int]) =~= b@.content.take(
                i as int + 1,
            ));
            assert(out@ =~= base + enc_lines(b@.content.take(i as int + 1)));
        }
        i = i + 1;
    }
    proof {
        assert(b@.content.take(n as int) =~= b@.content);
        assert(out@ =~= old(out)@ + enc_block(b@));
    }
}

/// Writes the durable record of a challenge. Reading the record back
/// yields the challenge unchanged.
pub fn encode_record(c: &Challenge) -> (s: String)
    ensures
        s@ == encode_challenge(c@),
        encodable(c@),
        decode_challenge(s@) == Some(c@),
{
    let input_lines = c.input.content.len();
    let output_lines = c.output.content.len();
    proof {
        assert(c@.input.content.len() == input_lines as int);
        assert(c@.output.content.len() == output_lines as int);
        assert forall|i: int|
            0 <= i < c@.submissions.len() implies 0 <= (#[trigger] c@.submissions[i]).score
            <= usize::MAX by {
            assert(c@.submissions[i] == c.submissions@[i]@);
        }
    }
    let mut out = String::new();
    enc_field_exec(&mut out, &c.id);
    enc_field_exec(&mut out, &c.title);
    enc_i64_exec(&mut out, c.created_at);
    enc_block_exec(&mut out, &c.input);
    enc_block_exec(&mut out, &c.output);
    enc_u64_exec(&mut out, c.submissions.len() as u64);
    let ghost base = out@;
    let n = c.submissions.len();
    let mut i: usize = 0;
    proof {
        assert(c@.submissions.take(0) =~= Seq::<SubmissionView>::empty());
        assert(out@ =~= base + enc_subs(c@.submissions.take(0)));
    }
    while i < n
        invariant
            i <= n,
            n == c.submissions@.len(),
            c@.submissions.len() == n,
            out@ == base + enc_subs(c@.submissions.take(i as int)),
        decreases n - i,
    {
        let x = &c.submissions[i];
        enc_field_exec(&mut out, &x.author);
        enc_field_exec(&mut out, &x.keys);
        enc_u64_exec(&mut out, x.score as u64);
        proof {
            lemma_enc_subs_push(c@.submissions.take(i as int), c@.submissions[i as int]);
            assert(c@.submissions.take(i as int).push(c@.submissions[i as int])
                =~= c@.submissions.take(i as int + 1));
            assert(out@ =~= base + enc_subs(c@.submissions.take(i as int + 1)));
        }
        i = i + 1;
    }
    proof {
        assert(c@.submissions.take(n as int) =~= c@.submissions);
        assert(out@ =~= encode_challenge(c@));
        assert(c@.submissions.len() == n as int);
        lemma_encode_decode(c@);
    }
    out
}

/// Reads an optional language tag.
fn dec_opt_exec(v: &Vec<char>, pos: usize) -> (r: Option<(Option<String>, usize)>)
    requires
        pos <= v@.len(),
    ensures
        match r {
            Some(p) => {
                &&& pos <= p.1 <= v@.len()
                &&& dec_opt_str(v@.skip(pos as int)) is Some
                &&& (dec_opt_str(v@.skip(pos as int))->0).0 == match p.0 {
                    Some(l) => Some(l@),
                    None => None::<Seq<char>>,
                }
                &&& (dec_opt_str(v@.skip(pos as int))->0).1 == v@.skip(p.1 as int)
            },
            None => dec_opt_str(v@.skip(pos as int)) is None,
        },
{
    match dec_nat_exec(v, pos, u64::MAX) {
        None => None,
        Some((tag, p)) => {
            if tag == 0 {
                Some((None, p))
            } else if tag == 1 {
                match dec_field_exec(v, p) {
                    None => None,
                    Some((l, q)) => Some((Some(l), q)),
                }
            } else {
                None
            }
        },
    }
}

/// Reads `n` lines, one field each.
fn dec_lines_exec(v: &Vec<char>, pos: usize, n: u64) -> (r: Option<(Vec<String>, usize)>)
    requires
        pos <= v@.len(),
    ensures
        match r {
            Some(p) => {
                &&& pos <= p.1 <= v@.len()
                &&& dec_lines(v@.skip(pos as int), n as nat) is Some
                &&& (dec_lines(v@.skip(pos as int), n as nat)->0).0 == crate::parser::lines_view(
                    p.0@,
                )
                &&& (dec_lines(v@.skip(pos as int), n as nat)->0).1 == v@.skip(p.1 as int)
            },
            None => dec_lines(v@.skip(pos as int), n as nat) is None,
        },
{
    let ghost orig = v@.skip(pos as int);
    let mut acc: Vec<String> = Vec::new();
    let mut cur: usize = pos;
    let mut i: u64 = 0;
    proof {
        assert(crate::parser::lines_view(acc@) =~= Seq::<Seq<char>>::empty());
        if dec_lines(orig, n as nat) is Some {
            assert(crate::parser::lines_view(acc@) + (dec_lines(orig, n as nat)->0).0 =~= (
            dec_lines(orig, n as nat)->0).0);
        }
    }
    while i < n
        invariant
            i <= n,
            pos <= cur <= v@.len(),
            orig == v@.skip(pos as int),
            dec_lines(orig, n as nat) is Some <==> dec_lines(
                v@.skip(cur as int),
                (n - i) as nat,
            ) is Some,
            dec_lines(orig, n as nat) is Some ==> {
                &&& (dec_lines(orig, n as nat)->0).0 == crate::parser::lines_view(acc@) + (
                dec_lines(v@.skip(cur as int), (n - i) as nat)->0).0
                &&& (dec_lines(orig, n as nat)->0).1 == (dec_lines(
                    v@.skip(cur as int),
                    (n - i) as nat,
                )->0).1
            },
        decreases n - i,
    {
        let ghost before = v@.skip(cur as int);
        let ghost rem = (n - i) as nat;
        match dec_field_exec(v, cur) {
            None => {
                proof {
                    assert(dec_lines(before, rem) is None);
                }
                return None;
            },
            Some((line, p)) => {
                proof {
                    assert(dec_field(before) == Some((line@, v@.skip(p as int))));
                    if dec_lines(v@.skip(p as int), (rem - 1) as nat) is Some {
                        let q0 = (dec_lines(v@.skip(p as int), (rem - 1) as nat)->0).0;
                        assert((dec_lines(before, rem)->0).0 == seq![line@] + q0);
                        assert(crate::parser::lines_view(acc@.push(line))
                            =~= crate::parser::lines_view(acc@).push(line@));
                        assert(crate::parser::lines_view(acc@) + (seq![line@] + q0)
                            =~= crate::parser::lines_view(acc@).push(line@) + q0);
                    }
                }
                acc.push(line);
                cur = p;
                i = i + 1;
            },
        }
    }
    proof {
        assert(dec_lines(v@.skip(cur as int), 0) == Some(
            (Seq::<Seq<char>>::empty(), v@.skip(cur as int)),
        ));
        if dec_lines(orig, n as nat) is Some {
            assert(crate::parser::lines_view(acc@) + Seq::<Seq<char>>::empty()
                =~= crate::parser::lines_view(acc@));
        }
    }
    Some((acc, cur))
}

/// Reads one text block.
fn dec_block_exec(v: &Vec<char>, pos: usize) -> (r: Option<(TextBlock, usize)>)
    requires
        pos <= v@.len(),
    ensures
        match r {
            Some(p) => {
                &&& pos <= p.1 <= v@.len()
                &&& dec_block(v@.skip(pos as int)) is Some
                &&& (dec_block(v@.skip(pos as int))->0).0 == p.0@
                &&& (dec_block(v@.skip(pos as int))->0).1 == v@.skip(p.1 as int)
            },
            None => dec_block(v@.skip(pos as int)) is None,
        },
{
    match dec_opt_exec(v, pos) {
        None => None,
        Some((lang, p1)) => {
            match dec_nat_exec(v, p1, u64::MAX) {
                None => None,
                Some((count, p2)) => {
                    match dec_lines_exec(v, p2, count) {
                        None => None,
                        Some((content, p3)) => {
                            let b = TextBlock::new(lang, content);
                            proof {
                                assert(b@ =~= (dec_block(v@.skip(pos as int))->0).0);
                            }
                            Some((b, p3))
                        },
                    }
                },
            }
        },
    }
}

/// Reads one submission.
fn dec_sub_exec(v: &Vec<char>, pos: usize) -> (r: Option<(Submission, usize)>)
    requires
        pos <= v@.len(),
    ensures
        match r {
            Some(p) => {
                &&& pos <= p.1 <= v@.len()
                &&& dec_sub(v@.skip(pos as int)) is Some
                &&& (dec_sub(v@.skip(pos as int))->0).0 == p.0@
                &&& (dec_sub(v@.skip(pos as int))->0).1 == v@.skip(p.1 as int)
            },
            None => dec_sub(v@.skip(pos as int)) is None,
        },
{
    match dec_field_exec(v, pos) {
        None => None,
        Some((author, p1)) => {
            match dec_field_exec(v, p1) {
                None => None,
                Some((keys, p2)) => {
                    match dec_nat_exec(v, p2, usize::MAX as u64) {
                        None => None,
                        Some((score, p3)) => {
                            proof {
                                assert(usize::MAX as u64 as nat == usize::MAX as nat);
                                let d = dec_nat(v@.skip(p2 as int), usize::MAX as nat);
                                assert(d == Some((score as nat, v@.skip(p3 as int))));
                                assert(dec_field(v@.skip(p2 as int)) is Some);
                                let f0 = (dec_field(v@.skip(p2 as int))->0).0;
                                assert(all_dec_digits(f0));
                                lemma_dec_val_nonneg(f0);
                                assert(dec_val(f0) <= usize::MAX as nat);
                                assert(score as nat == dec_val(f0));
                                assert(score <= usize::MAX as u64);
                            }
                            let x = Submission { author, keys, score: score as usize };
                            proof {
                                assert(x@.score == score as int);
                                assert(x@ =~= (dec_sub(v@.skip(pos as int))->0).0);
                            }
                            Some((x, p3))
                        },
                    }
                },
            }
        },
    }
}

/// Reads `n` submissions.
fn dec_subs_exec(v: &Vec<char>, pos: usize, n: u64) -> (r: Option<(Vec<Submission>, usize)>)
    requires
        pos <= v@.len(),
    ensures
        match r {
            Some(p) => {
                &&& pos <= p.1 <= v@.len()
                &&& dec_subs(v@.skip(pos as int), n as nat) is Some
                &&& (dec_subs(v@.skip(pos as int), n as nat)->0).0 == crate::judge::subs_view(p.0@)
                &&& (dec_subs(v@.skip(pos as int), n as nat)->0).1 == v@.skip(p.1 as int)
            },
            None => dec_subs(v@.skip(pos as int), n as nat) is None,
        },
{
    let ghost orig = v@.skip(pos as int);
    let mut acc: Vec<Submission> = Vec::new();
    let mut cur: usize = pos;
    let mut i: u64 = 0;
    proof {
        assert(crate::judge::subs_view(acc@) =~= Seq::<SubmissionView>::empty());
        if dec_subs(orig, n as nat) is Some {
            assert(crate::judge::subs_view(acc@) + (dec_subs(orig, n as nat)->0).0 =~= (
            dec_subs(orig, n as nat)->0).0);
        }
    }
    while i < n
        invariant
            i <= n,
            pos <= cur <= v@.len(),
            orig == v@.skip(pos as int),
            dec_subs(orig, n as nat) is Some <==> dec_subs(
                v@.skip(cur as int),
                (n - i) as nat,
            ) is Some,
            dec_subs(orig, n as nat) is Some ==> {
                &&& (dec_subs(orig, n as nat)->0).0 == crate::judge::subs_view(acc@) + (
                dec_subs(v@.skip(cur as int), (n - i) as nat)->0).0
                &&& (dec_subs(orig, n as nat)->0).1 == (dec_subs(
                    v@.skip(cur as int),
                    (n - i) as nat,
                )->0).1
            },
        decreases n - i,
    {
        let ghost before = v@.skip(cur as int);
        let ghost rem = (n - i) as nat;
        match dec_sub_exec(v, cur) {
            None => {
                proof {
                    assert(dec_subs(before, rem) is None);
                }
                return None;
            },
            Some((x, p)) => {
                proof {
                    if dec_subs(v@.skip(p as int), (rem - 1) as nat) is Some {
                        let q0 = (dec_subs(v@.skip(p as int), (rem - 1) as nat)->0).0;
                        assert((dec_subs(before, rem)->0).0 == seq![x@] + q0);
                        assert(crate::judge::subs_view(acc@.push(x)) =~= crate::judge::subs_view(
                            acc@,
                        ).push(x@));
                        assert(crate::judge::subs_view(acc@) + (seq![x@] + q0)
                            =~= crate::judge::subs_view(acc@).push(x@) + q0);
                    }
                }
                acc.push(x);
                cur = p;
                i = i + 1;
            },
        }
    }
    proof {
        assert(dec_subs(v@.skip(cur as int), 0) == Some(
            (Seq::<SubmissionView>::empty(), v@.skip(cur as int)),
        ));
        if dec_subs(orig, n as nat) is Some {
            assert(crate::judge::subs_view(acc@) + Seq::<SubmissionView>::empty()
                =~= crate::judge::subs_view(acc@));
        }
    }
    Some((acc, cur))
}

/// Reads a whole durable record back into a challenge.
pub fn decode_record(s: &str) -> (r: Option<Challenge>)
    ensures
        match r {
            Some(c) => decode_challenge(s@) == Some(c@),
            None => decode_challenge(s@) is None,
        },
{
    let v = chars_of(s);
    proof {
        assert(v@.skip(0) =~= s@);
    }
    match dec_field_exec(&v, 0) {
        None => None,
        Some((id, p1)) => match dec_field_exec(&v, p1) {
            None => None,
            Some((title, p2)) => match dec_int_exec(&v, p2) {
                None => None,
                Some((created_at, p3)) => match dec_block_exec(&v, p3) {
                    None => None,
                    Some((input, p4)) => match dec_block_exec(&v, p4) {
                        None => None,
                        Some((output, p5)) => match dec_nat_exec(&v, p5, u64::MAX) {
                            None => None,
                            Some((count, p6)) => match dec_subs_exec(&v, p6, count) {
                                None => None,
                                Some((submissions, p7)) => {
                                    if p7 == v.len() {
                                        let c = Challenge {
                                            id,
                                            title,
                                            input,
                                            output,
                                            created_at,
                                            submissions,
                                        };
                                        proof {
                                            assert(v@.skip(p7 as int).len() == 0);
                                            assert(decode_challenge(s@) is Some);
                                            assert(decode_challenge(s@)->0 =~= c@);
                                        }
                                        Some(c)
                                    } else {
                                        proof {
                                            assert(v@.skip(p7 as int).len() > 0);
                                        }
                                        None
                                    }
                                },
                            },
                        },
                    },
                },
            },
        },
    }
}

} // verus!
