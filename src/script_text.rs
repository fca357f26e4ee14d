use vstd::prelude::*;

verus! {

/// Characters with the Unicode `White_Space` property.
pub open spec fn is_space(c: char) -> bool {
    let u = c as u32;
    (0x09 <= u <= 0x0d) || u == 0x20 || u == 0x85 || u == 0xa0 || u == 0x1680 || (0x2000 <= u
        <= 0x200a) || u == 0x2028 || u == 0x2029 || u == 0x202f || u == 0x205f || u == 0x3000
}

/// Relies on char::is_whitespace: true exactly for the `White_Space` characters.
#[verifier::external_body]
fn char_is_space(c: char) -> (r: bool)
    ensures
        r == is_space(c),
{
    c.is_whitespace()
}

/// Relies on str::chars: the characters of the string, in order.
#[verifier::external_body]
pub(crate) fn chars_of(s: &str) -> (r: Vec<char>)
    ensures
        r@ == s@,
{
    s.chars().collect()
}

/// Relies on String's FromIterator<&char>: the string of these characters.
#[verifier::external_body]
pub(crate) fn string_of(cs: &Vec<char>) -> (r: String)
    ensures
        r@ == cs@,
{
    cs.iter().collect()
}

/// Index of the first non-space character of `s` at or after `i`.
pub open spec fn skip_spaces(s: Seq<char>, i: nat) -> nat
    decreases s.len() - i,
{
    if i < s.len() && is_space(s[i as int]) {
        skip_spaces(s, i + 1)
    } else {
        i
    }
}

/// End of `s` once the spaces before `e` and after `a` are dropped.
pub open spec fn drop_trailing_spaces(s: Seq<char>, a: nat, e: nat) -> nat
    decreases e,
{
    if a < e && e <= s.len() && is_space(s[e - 1]) {
        drop_trailing_spaces(s, a, (e - 1) as nat)
    } else {
        e
    }
}

/// `s` without its leading and trailing white space.
pub open spec fn trim(s: Seq<char>) -> Seq<char> {
    let a = skip_spaces(s, 0);
    s.subrange(a as int, drop_trailing_spaces(s, a, s.len()) as int)
}

/// The pieces of `s` between line feeds (one more than the line feeds).
pub open spec fn pieces(s: Seq<char>) -> Seq<Seq<char>>
    decreases s.len(),
{
    if s.len() == 0 {
        seq![Seq::empty()]
    } else {
        let p = pieces(s.drop_last());
        if s.last() == '\n' {
            p.push(Seq::empty())
        } else {
            p.update(p.len() - 1, p.last().push(s.last()))
        }
    }
}

/// The trimmed pieces, those that are left empty dropped.
pub open spec fn kept(p: Seq<Seq<char>>) -> Seq<Seq<char>>
    decreases p.len(),
{
    if p.len() == 0 {
        Seq::empty()
    } else {
        let k = kept(p.drop_last());
        let t = trim(p.last());
        if t.len() > 0 {
            k.push(t)
        } else {
            k
        }
    }
}

/// The non-blank lines of a script, trimmed.
pub open spec fn script_lines(s: Seq<char>) -> Seq<Seq<char>> {
    kept(pieces(s))
}

proof fn lemma_kept_nonempty(p: Seq<Seq<char>>, k: int)
    requires
        0 <= k < kept(p).len(),
    ensures
        kept(p)[k].len() > 0,
    decreases p.len(),
{
    if p.len() > 0 {
        let rest = kept(p.drop_last());
        if k < rest.len() {
            lemma_kept_nonempty(p.drop_last(), k);
        }
    }
}

/// Every line of a script holds at least one character.
pub proof fn lemma_script_lines_nonempty(s: Seq<char>, k: int)
    requires
        0 <= k < script_lines(s).len(),
    ensures
        script_lines(s)[k].len() > 0,
{
    lemma_kept_nonempty(pieces(s), k);
}

/// Copies `s[from..to]` without its leading and trailing white space.
fn trimmed(s: &Vec<char>, from: usize, to: usize) -> (r: Vec<char>)
    requires
        from <= to <= s@.len(),
    ensures
        r@ == trim(s@.subrange(from as int, to as int)),
{
    let ghost sub = s@.subrange(from as int, to as int);
    let mut a: usize = from;
    while a < to && char_is_space(s[a])
        invariant
            from <= a <= to <= s@.len(),
            sub == s@.subrange(from as int, to as int),
            skip_spaces(sub, 0) == skip_spaces(sub, (a - from) as nat),
        decreases to - a,
    {
        a = a + 1;
    }
    let ghost sa = skip_spaces(sub, 0);
    assert(sa == (a - from) as nat);
    let mut b: usize = to;
    while b > a && char_is_space(s[b - 1])
        invariant
            from <= a <= b <= to <= s@.len(),
            sub == s@.subrange(from as int, to as int),
            sa == (a - from) as nat,
            drop_trailing_spaces(sub, sa, sub.len()) == drop_trailing_spaces(sub, sa, (b - from) as nat),
        decreases b,
    {
        b = b - 1;
    }
    let mut r: Vec<char> = Vec::new();
    let mut k: usize = a;
    while k < b
        invariant
            a <= k <= b <= s@.len(),
            r@ == s@.subrange(a as int, k as int),
        decreases b - k,
    {
        r.push(s[k]);
        k = k + 1;
        assert(r@ =~= s@.subrange(a as int, k as int));
    }
    assert(r@ =~= trim(sub));
    r
}

/// Splits a script into its non-blank lines, each trimmed.
pub fn split_script_lines(text: &str) -> (r: Vec<Vec<char>>)
    ensures
        r@.len() == script_lines(text@).len(),
        forall|k: int| 0 <= k < r@.len() ==> #[trigger] r@[k]@ == script_lines(text@)[k],
{
    let cs = chars_of(text);
    let ghost s = cs@;
    let mut out: Vec<Vec<char>> = Vec::new();
    let mut start: usize = 0;
    let mut i: usize = 0;
    proof {
        assert(s.take(0) =~= Seq::<char>::empty());
    }
    while i < cs.len()
        invariant
            s == cs@,
            start <= i <= s.len(),
            pieces(s.take(i as int)).len() >= 1,
            pieces(s.take(i as int)).last() == s.subrange(start as int, i as int),
            out@.len() == kept(pieces(s.take(i as int)).drop_last()).len(),
            forall|k: int|
                0 <= k < out@.len() ==> #[trigger] out@[k]@ == kept(
                    pieces(s.take(i as int)).drop_last(),
                )[k],
        decreases s.len() - i,
    {
        let ghost p = pieces(s.take(i as int));
        proof {
            assert(s.take(i as int + 1).drop_last() =~= s.take(i as int));
            assert(s.take(i as int + 1).last() == s[i as int]);
        }
        if cs[i] == '\n' {
            let t = trimmed(&cs, start, i);
            proof {
                assert(p.push(Seq::empty()).drop_last() =~= p);
            }
            if t.len() > 0 {
                out.push(t);
            }
            start = i + 1;
            i = i + 1;
            proof {
                assert(s.subrange(start as int, i as int) =~= Seq::<char>::empty());
            }
        } else {
            proof {
                let q = p.update(p.len() - 1, p.last().push(s[i as int]));
                assert(q.drop_last() =~= p.drop_last());
                assert(q.last() =~= s.subrange(start as int, i as int + 1));
            }
            i = i + 1;
        }
    }
    proof {
        assert(s.take(s.len() as int) =~= s);
    }
    let t = trimmed(&cs, start, i);
    if t.len() > 0 {
        out.push(t);
    }
    out
}

} // verus!
