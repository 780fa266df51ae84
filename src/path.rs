//! Derivation paths: sequences of child steps, and their text form
//! `/84'/1'/0'/0` (each step a slash, a decimal index, and a quote when
//! hardened).
use vstd::prelude::*;
use crate::descriptor::InputError;
use bdk::bitcoin::util::bip32::ChildNumber;
use std::str::FromStr;
use crate::text::{dec, dec_value, digit_value, is_digit, lemma_dec_digits, push_dec, matches_at};

verus! {

/// Indices at or above this value are out of the 31-bit range of a step.
pub const HARDENED_LIMIT: u32 = 0x8000_0000;

/// One step of a derivation path.
#[derive(Clone, Copy, Debug, PartialEq, Eq, Structural)]
pub struct ChildStep {
    pub index: u32,
    pub hardened: bool,
}

impl ChildStep {
    pub open spec fn wf(self) -> bool {
        self.index < HARDENED_LIMIT
    }
}

pub open spec fn steps_wf(p: Seq<ChildStep>) -> bool {
    forall|i: int| 0 <= i < p.len() ==> (#[trigger] p[i]).wf()
}

/// The text of one step: `/`, the index in decimal, and `'` when hardened.
pub open spec fn step_text(st: ChildStep) -> Seq<char> {
    seq!['/'] + dec(st.index as nat) + if st.hardened { seq!['\''] } else { Seq::empty() }
}

/// The text of a path: the texts of its steps, in order.
pub open spec fn path_text(p: Seq<ChildStep>) -> Seq<char>
    decreases p.len(),
{
    if p.len() == 0 {
        Seq::empty()
    } else {
        path_text(p.drop_last()) + step_text(p.last())
    }
}

pub proof fn lemma_path_text_push(p: Seq<ChildStep>, st: ChildStep)
    ensures
        path_text(p.push(st)) == path_text(p) + step_text(st),
{
    assert(p.push(st).drop_last() =~= p);
}

pub proof fn lemma_path_text_append(a: Seq<ChildStep>, b: Seq<ChildStep>)
    ensures
        path_text(a + b) == path_text(a) + path_text(b),
    decreases b.len(),
{
    if b.len() == 0 {
        assert(a + b =~= a);
        assert(path_text(a) + path_text(b) =~= path_text(a));
    } else {
        lemma_path_text_append(a, b.drop_last());
        assert((a + b).drop_last() =~= a + b.drop_last());
        assert(path_text(a) + path_text(b.drop_last()) + step_text(b.last()) =~= path_text(a) + (
        path_text(b.drop_last()) + step_text(b.last())));
    }
}

/// A path's text is its first step's text followed by the text of the rest.
pub proof fn lemma_path_text_first(p: Seq<ChildStep>)
    requires
        p.len() > 0,
    ensures
        path_text(p) == step_text(p[0]) + path_text(p.drop_first()),
        path_text(p)[0] == '/',
{
    lemma_path_text_append(seq![p[0]], p.drop_first());
    assert(seq![p[0]] + p.drop_first() =~= p);
    assert(seq![p[0]].drop_last() =~= Seq::<ChildStep>::empty());
    assert(path_text(Seq::<ChildStep>::empty()) + step_text(p[0]) =~= step_text(p[0]));
}

proof fn lemma_dec_injective(a: nat, b: nat, s: Seq<char>, ra: Seq<char>, rb: Seq<char>)
    requires
        s == dec(a) + ra,
        s == dec(b) + rb,
        ra.len() == 0 || !is_digit(ra[0]),
        rb.len() == 0 || !is_digit(rb[0]),
    ensures
        a == b,
        ra == rb,
{
    lemma_dec_digits(a);
    lemma_dec_digits(b);
    let da = dec(a);
    let db = dec(b);
    if da.len() < db.len() {
        assert(s[da.len() as int] == db[da.len() as int]);
        assert(s[da.len() as int] == ra[0]);
        assert(false);
    }
    if db.len() < da.len() {
        assert(s[db.len() as int] == da[db.len() as int]);
        assert(s[db.len() as int] == rb[0]);
        assert(false);
    }
    assert(da =~= s.take(da.len() as int));
    assert(db =~= s.take(db.len() as int));
    assert(ra =~= s.skip(da.len() as int));
    assert(rb =~= s.skip(db.len() as int));
}

proof fn lemma_step_injective(a: ChildStep, b: ChildStep, ra: Seq<char>, rb: Seq<char>)
    requires
        step_text(a) + ra == step_text(b) + rb,
        ra.len() == 0 || ra[0] == '/',
        rb.len() == 0 || rb[0] == '/',
    ensures
        a == b,
        ra == rb,
{
    let s = step_text(a) + ra;
    let ta = (if a.hardened { seq!['\''] } else { Seq::empty() }) + ra;
    let tb = (if b.hardened { seq!['\''] } else { Seq::empty() }) + rb;
    assert(s =~= seq!['/'] + (dec(a.index as nat) + ta));
    assert(s =~= seq!['/'] + (dec(b.index as nat) + tb));
    assert(s.drop_first() =~= dec(a.index as nat) + ta);
    assert(s.drop_first() =~= dec(b.index as nat) + tb);
    lemma_dec_injective(a.index as nat, b.index as nat, s.drop_first(), ta, tb);
    if a.hardened {
        assert(ta[0] == '\'');
        assert(ra =~= ta.drop_first());
    } else {
        assert(ta =~= ra);
    }
    if b.hardened {
        assert(tb[0] == '\'');
        assert(rb =~= tb.drop_first());
    } else {
        assert(tb =~= rb);
    }
}

/// Distinct paths have distinct texts.
#[verifier::rlimit(50)]
pub proof fn lemma_path_text_injective(p: Seq<ChildStep>, q: Seq<ChildStep>)
    requires
        path_text(p) == path_text(q),
    ensures
        p == q,
    decreases p.len(),
{
    if p.len() == 0 && q.len() > 0 {
        lemma_path_text_first(q);
    } else if p.len() > 0 && q.len() == 0 {
        lemma_path_text_first(p);
    } else if p.len() > 0 {
        lemma_path_text_first(p);
        lemma_path_text_first(q);
        if p.len() > 1 {
            lemma_path_text_first(p.drop_first());
        }
        if q.len() > 1 {
            lemma_path_text_first(q.drop_first());
        }
        lemma_step_injective(p[0], q[0], path_text(p.drop_first()), path_text(q.drop_first()));
        lemma_path_text_injective(p.drop_first(), q.drop_first());
        assert(p =~= seq![p[0]] + p.drop_first());
        assert(q =~= seq![q[0]] + q.drop_first());
    }
}

/// The characters that a path's text is made of.
pub open spec fn is_path_char(c: char) -> bool {
    c == '/' || c == '\'' || is_digit(c)
}

pub proof fn lemma_path_chars(p: Seq<ChildStep>)
    ensures
        forall|i: int| 0 <= i < path_text(p).len() ==> is_path_char(#[trigger] path_text(p)[i]),
        path_text(p).len() > 0 ==> (path_text(p).last() == '\'' || is_digit(path_text(p).last())),
    decreases p.len(),
{
    if p.len() > 0 {
        lemma_path_chars(p.drop_last());
        let st = p.last();
        lemma_dec_digits(st.index as nat);
        let a = path_text(p.drop_last());
        let b = step_text(st);
        assert forall|i: int| 0 <= i < path_text(p).len() implies is_path_char(
            #[trigger] path_text(p)[i],
        ) by {
            if i < a.len() {
                assert(path_text(p)[i] == a[i]);
            } else {
                let k = i - a.len();
                assert(path_text(p)[i] == b[k]);
                if k > 0 && k < 1 + dec(st.index as nat).len() {
                    assert(b[k] == dec(st.index as nat)[k - 1]);
                }
            }
        }
        let d = dec(st.index as nat);
        if !st.hardened {
            assert(b.last() == d.last());
        }
    }
}

/// Appends the text of `p` to `out`.
pub fn push_path(out: &mut Vec<char>, p: &Vec<ChildStep>)
    ensures
        final(out)@ == old(out)@ + path_text(p@),
{
    let mut i: usize = 0;
    while i < p.len()
        invariant
            i <= p@.len(),
            out@ == old(out)@ + path_text(p@.take(i as int)),
        decreases p@.len() - i,
    {
        let st = p[i];
        proof {
            lemma_path_text_push(p@.take(i as int), st);
            assert(p@.take(i as int).push(st) =~= p@.take(i + 1));
        }
        out.push('/');
        push_dec(out, st.index);
        if st.hardened {
            out.push('\'');
        }
        assert(out@ =~= old(out)@ + path_text(p@.take(i + 1)));
        i += 1;
    }
    assert(p@.take(i as int) =~= p@);
}

/// The text of a path.
pub fn path_to_string(p: &Vec<ChildStep>) -> (r: String)
    ensures
        r@ == path_text(p@),
{
    let mut out: Vec<char> = Vec::new();
    push_path(&mut out, p);
    assert(out@ =~= path_text(p@));
    crate::text::string_of(&out)
}

proof fn lemma_dec_value_prefix(s: Seq<char>, k: int)
    requires
        0 <= k <= s.len(),
    ensures
        dec_value(s.take(k)) <= dec_value(s),
    decreases s.len(),
{
    if k < s.len() {
        lemma_dec_value_prefix(s.drop_last(), k);
        assert(s.drop_last().take(k) =~= s.take(k));
    } else {
        assert(s.take(k) =~= s);
    }
}

proof fn lemma_dec_value_push(s: Seq<char>, c: char)
    ensures
        dec_value(s.push(c)) == dec_value(s) * 10 + digit_value(c),
{
    assert(s.push(c).drop_last() =~= s);
}

/// Reads the run of decimal digits that starts at `start`, stopping before
/// `hi`. When that text is the decimal text of `want`, followed by the end or
/// by a character that is no digit, the read yields `want` and the position
/// after its digits.
fn read_digits(s: &Vec<char>, start: usize, hi: usize, Ghost(want): Ghost<Option<nat>>) -> (r:
    Option<(u32, usize)>)
    requires
        start <= hi <= s@.len(),
        want matches Some(x) ==> {
            &&& x < HARDENED_LIMIT
            &&& start + dec(x).len() <= hi
            &&& s@.subrange(start as int, start + dec(x).len()) == dec(x)
            &&& (start + dec(x).len() == hi || !is_digit(s@[start + dec(x).len()]))
        },
    ensures
        r matches Some((v, j)) ==> start <= j <= hi && v < HARDENED_LIMIT,
        want matches Some(x) ==> r == Some((x as u32, (start + dec(x).len()) as usize)),
{
    let mut j: usize = start;
    let mut v: u64 = 0;
    let ghost ds = if let Some(x) = want { dec(x) } else { Seq::empty() };
    proof {
        if let Some(x) = want {
            lemma_dec_digits(x);
            assert forall|k: int| 0 <= k < ds.len() implies s@[start + k] == ds[k] by {
                assert(s@.subrange(start as int, start + ds.len())[k] == ds[k]);
            }
        }
    }
    while j < hi && s[j] >= '0' && s[j] <= '9'
        invariant
            start <= j <= hi <= s@.len(),
            v == dec_value(s@.subrange(start as int, j as int)),
            v < HARDENED_LIMIT,
            want matches Some(x) ==> {
                &&& x < HARDENED_LIMIT
                &&& ds == dec(x)
                &&& dec_value(ds) == x
                &&& start + ds.len() <= hi
                &&& forall|k: int| 0 <= k < ds.len() ==> s@[start + k] == ds[k]
                &&& (start + ds.len() == hi || !is_digit(s@[start + ds.len()]))
                &&& j <= start + ds.len()
            },
        decreases hi - j,
    {
        let d = (s[j] as u32 - '0' as u32) as u64;
        proof {
            lemma_dec_value_push(s@.subrange(start as int, j as int), s@[j as int]);
            assert(s@.subrange(start as int, j as int).push(s@[j as int]) =~= s@.subrange(
                start as int,
                j + 1,
            ));
            if let Some(x) = want {
                assert(j + 1 <= start + ds.len());
                assert(s@.subrange(start as int, j + 1) =~= ds.take(j + 1 - start));
                lemma_dec_value_prefix(ds, j + 1 - start);
                assert(dec_value(s@.subrange(start as int, j + 1)) == v * 10 + d);
                assert(v * 10 + d <= x);
            }
        }
        if v >= 0x0CCC_CCCD || v * 10 + d >= HARDENED_LIMIT as u64 {
            return None;
        }
        v = v * 10 + d;
        j += 1;
    }
    proof {
        if let Some(x) = want {
            if j < start + ds.len() {
                assert(is_digit(ds[j - start]));
                assert(false);
            }
            assert(s@.subrange(start as int, j as int) =~= ds);
        }
    }
    Some((v as u32, j))
}

/// Reads one step starting at `i`, stopping before `hi`. When the text from
/// `i` is the text of `target` followed by nothing or by a slash, the read
/// yields `target` and the position after its text.
fn read_step(s: &Vec<char>, i: usize, hi: usize, Ghost(target): Ghost<Option<ChildStep>>) -> (r:
    Option<(ChildStep, usize)>)
    requires
        i <= hi <= s@.len(),
        target matches Some(t) ==> {
            &&& t.wf()
            &&& i + step_text(t).len() <= hi
            &&& s@.subrange(i as int, i + step_text(t).len()) == step_text(t)
            &&& (i + step_text(t).len() == hi || s@[i + step_text(t).len()] == '/')
        },
    ensures
        r matches Some((st, j)) ==> i < j <= hi && st.wf(),
        target matches Some(t) ==> r == Some((t, (i + step_text(t).len()) as usize)),
{
    let ghost want: Option<nat> = if let Some(t) = target { Some(t.index as nat) } else { None };
    proof {
        if let Some(t) = target {
            let tt = step_text(t);
            let ds = dec(t.index as nat);
            lemma_dec_digits(t.index as nat);
            assert(tt =~= seq!['/'] + ds + if t.hardened { seq!['\''] } else { Seq::empty() });
            assert forall|k: int| 0 <= k < tt.len() implies s@[i + k] == tt[k] by {
                assert(s@.subrange(i as int, i + tt.len())[k] == tt[k]);
            }
            assert(tt[0] == '/');
            assert(s@[i + 0] == tt[0]);
            assert forall|k: int| 0 <= k < ds.len() implies s@[i + 1 + k] == ds[k] by {
                assert(tt[1 + k] == ds[k]);
            }
            assert(s@.subrange(i + 1, i + 1 + ds.len()) =~= ds);
            if t.hardened {
                assert(s@[i + 1 + ds.len()] == tt[1 + ds.len() as int]);
            }
        }
    }
    if i >= hi || s[i] != '/' {
        return None;
    }
    match read_digits(s, i + 1, hi, Ghost(want)) {
        None => None,
        Some((v, j)) => {
            if j == i + 1 {
                proof {
                    if let Some(t) = target {
                        lemma_dec_digits(t.index as nat);
                    }
                }
                return None;
            }
            let mut hardened = false;
            let mut end = j;
            if j < hi && s[j] == '\'' {
                hardened = true;
                end = j + 1;
            }
            let st = ChildStep { index: v, hardened };
            proof {
                if let Some(t) = target {
                    let ds = dec(t.index as nat);
                    let tt = step_text(t);
                    assert(tt =~= seq!['/'] + ds + if t.hardened { seq!['\''] } else { Seq::empty() });
                    if t.hardened {
                        assert(s@[j as int] == tt[1 + ds.len() as int]);
                    }
                }
            }
            Some((st, end))
        },
    }
}

/// Reads the path whose text is `s[lo..hi]`. Yields a path exactly when that
/// text is the text of a well-formed path, and then that path.
pub fn parse_path_range(s: &Vec<char>, lo: usize, hi: usize) -> (r: Option<Vec<ChildStep>>)
    requires
        lo <= hi <= s@.len(),
    ensures
        r matches Some(p) ==> steps_wf(p@) && path_text(p@) == s@.subrange(lo as int, hi as int),
        forall|p: Seq<ChildStep>|
            steps_wf(p) && #[trigger] path_text(p) == s@.subrange(lo as int, hi as int) ==> (r
                matches Some(q) && q@ == p),
{
    let ghost sub = s@.subrange(lo as int, hi as int);
    let ghost has = exists|p: Seq<ChildStep>| steps_wf(p) && #[trigger] path_text(p) == sub;
    let ghost target = if has {
        choose|p: Seq<ChildStep>| steps_wf(p) && #[trigger] path_text(p) == sub
    } else {
        Seq::empty()
    };
    let mut steps: Vec<ChildStep> = Vec::new();
    let mut i: usize = lo;
    while i < hi
        invariant
            lo <= i <= hi <= s@.len(),
            steps_wf(steps@),
            sub == s@.subrange(lo as int, hi as int),
            has == exists|p: Seq<ChildStep>| steps_wf(p) && #[trigger] path_text(p) == sub,
            has ==> {
                &&& steps_wf(target)
                &&& path_text(target) == sub
                &&& steps@.len() <= target.len()
                &&& steps@ == target.take(steps@.len() as int)
                &&& i == lo + path_text(steps@).len()
            },
        decreases hi - i,
    {
        let ghost want: Option<ChildStep> = if has && steps@.len() < target.len() {
            Some(target[steps@.len() as int])
        } else {
            None
        };
        proof {
            if has {
                let k = steps@.len() as int;
                let rest = target.skip(k);
                lemma_path_text_append(target.take(k), rest);
                assert(target.take(k) + rest =~= target);
                if k == target.len() {
                    assert(rest =~= Seq::<ChildStep>::empty());
                    assert(false);
                }
                lemma_path_text_first(rest);
                let t = target[k];
                assert(rest[0] == t);
                let after = path_text(rest.drop_first());
                assert(path_text(rest) == step_text(t) + after);
                assert(target[k].wf());
                assert forall|m: int| 0 <= m < step_text(t).len() implies s@[i + m] == step_text(
                    t,
                )[m] by {
                    assert(sub[path_text(steps@).len() + m] == path_text(rest)[m]);
                }
                assert(s@.subrange(i as int, i + step_text(t).len()) =~= step_text(t));
                if i + step_text(t).len() < hi {
                    assert(rest.drop_first().len() > 0);
                    lemma_path_text_first(rest.drop_first());
                    assert(sub[path_text(steps@).len() + step_text(t).len() as int] == path_text(
                        rest,
                    )[step_text(t).len() as int]);
                }
            }
        }
        match read_step(s, i, hi, Ghost(want)) {
            None => {
                return None;
            },
            Some((st, j)) => {
                proof {
                    if has {
                        lemma_path_text_push(steps@, st);
                        assert(target.take(steps@.len() as int + 1) =~= steps@.push(st));
                    }
                }
                steps.push(st);
                i = j;
            },
        }
    }
    proof {
        if has {
            if steps@.len() < target.len() {
                lemma_path_text_append(steps@, target.skip(steps@.len() as int));
                assert(steps@ + target.skip(steps@.len() as int) =~= target);
                lemma_path_text_first(target.skip(steps@.len() as int));
                assert(path_text(target).len() == path_text(steps@).len() + path_text(
                    target.skip(steps@.len() as int),
                ).len());
                assert(false);
            }
            assert(steps@ =~= target);
            assert forall|p: Seq<ChildStep>|
                steps_wf(p) && #[trigger] path_text(p) == sub implies p == target by {
                lemma_path_text_injective(p, target);
            }
        }
    }
    let mut out: Vec<char> = Vec::new();
    push_path(&mut out, &steps);
    assert(out@ =~= path_text(steps@));
    if hi - lo == out.len() && matches_at(s, lo, &out) {
        Some(steps)
    } else {
        None
    }
}

/// What the path text parses to: `m` followed by steps such as `/84'`,
/// `/84h` or `/0`.
pub uninterp spec fn parsed_path(text: Seq<char>) -> Option<Seq<ChildStep>>;

/// Relies on `DerivationPath::from_str`: the steps of a path text, each
/// index below 2^31 (it builds them with `from_normal_idx` and
/// `from_hardened_idx`).
#[verifier::external_body]
fn path_from_str(text: &str) -> (r: Option<Vec<ChildStep>>)
    ensures
        match r {
            Some(v) => parsed_path(text@) == Some(v@) && steps_wf(v@),
            None => parsed_path(text@) is None,
        },
{
    let p = bdk::bitcoin::util::bip32::DerivationPath::from_str(text).ok()?;
    Some(p.as_ref().iter().map(|c| match *c {
        ChildNumber::Normal { index } => ChildStep { index, hardened: false },
        ChildNumber::Hardened { index } => ChildStep { index, hardened: true },
    }).collect())
}

/// Reads a derivation path such as `m/84'/1'/0'/0` or `m/84h/1h/0h/0`.
pub fn parse_path(text: &str) -> (r: Result<Vec<ChildStep>, InputError>)
    ensures
        match r {
            Ok(p) => parsed_path(text@) == Some(p@) && steps_wf(p@),
            Err(e) => parsed_path(text@) is None && e == InputError::InvalidPath,
        },
{
    match path_from_str(text) {
        Some(p) => Ok(p),
        None => Err(InputError::InvalidPath),
    }
}

} // verus!
