use vstd::prelude::*;

verus! {

/// The views of a sequence of character vectors, fragment by fragment.
pub open spec fn views_of(v: Seq<Vec<char>>) -> Seq<Seq<char>> {
    v.map_values(|f: Vec<char>| f@)
}

/// Whether a character has the Unicode `White_Space` property; the property
/// table is too long to restate, so the result is only named here.
pub uninterp spec fn is_unicode_space(c: char) -> bool;

/// Relies on char::is_whitespace: whether a character has the Unicode
/// `White_Space` property depends on the character alone.
#[verifier::external_body]
fn is_space(c: char) -> (r: bool)
    ensures
        r == is_unicode_space(c),
{
    c.is_whitespace()
}

/// Relies on String::push: appends the given character to the end of the string.
#[verifier::external_body]
fn push_char(s: &mut String, c: char)
    ensures
        final(s)@ == old(s)@.push(c),
{
    s.push(c)
}

/// The characters of a string, in order.
pub fn chars_of(s: &str) -> (r: Vec<char>)
    ensures
        r@ == s@,
{
    let n = s.unicode_len();
    let mut r: Vec<char> = Vec::new();
    let mut i: usize = 0;
    while i < n
        invariant
            n == s@.len(),
            i <= n,
            r@ == s@.take(i as int),
        decreases n - i,
    {
        r.push(s.get_char(i));
        i = i + 1;
        assert(r@ =~= s@.take(i as int));
    }
    assert(r@ =~= s@);
    r
}

/// The string holding exactly the given characters, in order.
pub fn string_of(cs: &Vec<char>) -> (r: String)
    ensures
        r@ == cs@,
{
    let mut r = String::new();
    let mut i: usize = 0;
    while i < cs.len()
        invariant
            i <= cs@.len(),
            r@ == cs@.take(i as int),
        decreases cs@.len() - i,
    {
        push_char(&mut r, cs[i]);
        i = i + 1;
        assert(r@ =~= cs@.take(i as int));
    }
    assert(r@ =~= cs@);
    r
}

/// Whether the characters equal those of the given string.
pub fn chars_eq_str(a: &Vec<char>, b: &str) -> (r: bool)
    ensures
        r == (a@ == b@),
{
    let n = b.unicode_len();
    if a.len() != n {
        return false;
    }
    let mut i: usize = 0;
    while i < n
        invariant
            n == b@.len(),
            a@.len() == n,
            i <= n,
            forall|j: int| 0 <= j < i ==> a@[j] == b@[j],
        decreases n - i,
    {
        if a[i] != b.get_char(i) {
            return false;
        }
        i = i + 1;
    }
    assert(a@ =~= b@);
    true
}

/// The code of a character with an ASCII upper-case letter taken down to
/// its lower-case counterpart; all other characters keep their own code.
pub open spec fn lower_code(c: char) -> int {
    if 65 <= c as u32 && c as u32 <= 90 {
        c as u32 + 32
    } else {
        c as u32 as int
    }
}

/// Character sequences that agree position by position up to ASCII case.
pub open spec fn eq_ignore_case_seq(a: Seq<char>, b: Seq<char>) -> bool {
    a.len() == b.len() && (forall|i: int| 0 <= i < a.len() ==> lower_code(a[i]) == lower_code(b[i]))
}

/// Whether the characters equal the given string up to ASCII case.
pub fn eq_ignore_case(a: &Vec<char>, b: &str) -> (r: bool)
    ensures
        r == eq_ignore_case_seq(a@, b@),
{
    let n = b.unicode_len();
    if a.len() != n {
        return false;
    }
    let mut i: usize = 0;
    while i < n
        invariant
            n == b@.len(),
            a@.len() == n,
            i <= n,
            forall|j: int| 0 <= j < i ==> lower_code(a@[j]) == lower_code(b@[j]),
        decreases n - i,
    {
        let ca = a[i] as u32;
        let cb = b.get_char(i) as u32;
        let la = if 65 <= ca && ca <= 90 { ca + 32 } else { ca };
        let lb = if 65 <= cb && cb <= 90 { cb + 32 } else { cb };
        proof {
            assert(la as int == lower_code(a@[i as int]));
            assert(lb as int == lower_code(b@[i as int]));
        }
        if la != lb {
            return false;
        }
        i = i + 1;
    }
    true
}

/// Splitting on a separator: one fragment more than there are separators,
/// each fragment the run of characters between two neighbouring separators.
pub open spec fn spec_split(s: Seq<char>, sep: char) -> Seq<Seq<char>>
    decreases s.len(),
{
    if s.len() == 0 {
        seq![Seq::<char>::empty()]
    } else if s[0] == sep {
        seq![Seq::<char>::empty()] + spec_split(s.drop_first(), sep)
    } else {
        let rest = spec_split(s.drop_first(), sep);
        seq![seq![s[0]] + rest[0]] + rest.drop_first()
    }
}

pub proof fn lemma_split_len(s: Seq<char>, sep: char)
    ensures
        spec_split(s, sep).len() >= 1,
    decreases s.len(),
{
    if s.len() > 0 {
        lemma_split_len(s.drop_first(), sep);
    }
}

/// A fragment list whose first fragment has been extended in front by `p`.
pub open spec fn glue(p: Seq<char>, ss: Seq<Seq<char>>) -> Seq<Seq<char>> {
    seq![p + ss[0]] + ss.drop_first()
}

proof fn lemma_glue_empty(ss: Seq<Seq<char>>)
    requires
        ss.len() >= 1,
    ensures
        glue(Seq::<char>::empty(), ss) == ss,
{
    assert(Seq::<char>::empty() + ss[0] =~= ss[0]);
    assert(glue(Seq::<char>::empty(), ss) =~= ss);
}

/// Splits the characters on the separator.
pub fn split_char(s: &Vec<char>, sep: char) -> (r: Vec<Vec<char>>)
    ensures
        views_of(r@) == spec_split(s@, sep),
{
    let ghost whole: Seq<char> = s@;
    let mut r: Vec<Vec<char>> = Vec::new();
    let mut cur: Vec<char> = Vec::new();
    let mut i: usize = 0;
    proof {
        lemma_split_len(s@, sep);
        lemma_glue_empty(spec_split(s@, sep));
        assert(s@.skip(0) =~= s@);
    }
    while i < s.len()
        invariant
            i <= s@.len(),
            spec_split(s@, sep) == views_of(r@) + glue(cur@, spec_split(s@.skip(i as int), sep)),
        decreases s@.len() - i,
    {
        let ghost tail = s@.skip(i as int);
        proof {
            assert(tail.len() > 0);
            assert(tail[0] == s@[i as int]);
            assert(tail.drop_first() =~= s@.skip(i as int + 1));
            lemma_split_len(s@.skip(i as int + 1), sep);
        }
        let c = s[i];
        if c == sep {
            let ghost rest = spec_split(s@.skip(i as int + 1), sep);
            proof {
                assert(spec_split(tail, sep) == seq![Seq::<char>::empty()] + rest);
                assert(cur@ + Seq::<char>::empty() =~= cur@);
                assert(glue(cur@, seq![Seq::<char>::empty()] + rest) =~= seq![cur@] + rest);
            }
            let done = cur;
            cur = Vec::new();
            r.push(done);
            proof {
                assert(views_of(r@) =~= views_of(r@.drop_last()) + seq![done@]);
                lemma_glue_empty(rest);
                assert(views_of(r@.drop_last()) + (seq![done@] + rest) =~= views_of(r@) + rest);
                assert(views_of(r@.drop_last()) + glue(done@, seq![Seq::<char>::empty()] + rest)
                    =~= views_of(r@) + glue(cur@, rest));
            }
        } else {
            let ghost rest = spec_split(s@.skip(i as int + 1), sep);
            proof {
                assert(spec_split(tail, sep) == seq![seq![c] + rest[0]] + rest.drop_first());
                assert(cur@ + (seq![c] + rest[0]) =~= cur@.push(c) + rest[0]);
                assert(glue(cur@, spec_split(tail, sep)) =~= glue(cur@.push(c), rest));
            }
            cur.push(c);
        }
        i = i + 1;
    }
    proof {
        assert(s@.skip(s@.len() as int) =~= Seq::<char>::empty());
        assert(spec_split(s@.skip(s@.len() as int), sep) == seq![Seq::<char>::empty()]);
        assert(cur@ + Seq::<char>::empty() =~= cur@);
        assert(glue(cur@, seq![Seq::<char>::empty()]) =~= seq![cur@]);
    }
    r.push(cur);
    proof {
        assert(views_of(r@) =~= views_of(r@.drop_last()) + seq![r@.last()@]);
    }
    r
}

/// The views of a sequence of strings, string by string.
pub open spec fn strings_view(v: Seq<String>) -> Seq<Seq<char>> {
    v.map_values(|s: String| s@)
}

/// Whether two character vectors hold the same characters.
pub fn chars_eq_vec(a: &Vec<char>, b: &Vec<char>) -> (r: bool)
    ensures
        r == (a@ == b@),
{
    if a.len() != b.len() {
        return false;
    }
    let mut i: usize = 0;
    while i < a.len()
        invariant
            a@.len() == b@.len(),
            i <= a@.len(),
            forall|j: int| 0 <= j < i ==> a@[j] == b@[j],
        decreases a@.len() - i,
    {
        if a[i] != b[i] {
            return false;
        }
        i = i + 1;
    }
    assert(a@ =~= b@);
    true
}

/// Whether the characters equal those of the given owned string.
pub fn chars_eq_string(a: &Vec<char>, b: &String) -> (r: bool)
    ensures
        r == (a@ == b@),
{
    chars_eq_str(a, b.as_str())
}

/// The characters of positions `lo` up to `hi`, half open.
pub fn sub_range(s: &Vec<char>, lo: usize, hi: usize) -> (r: Vec<char>)
    requires
        lo <= hi <= s@.len(),
    ensures
        r@ == s@.subrange(lo as int, hi as int),
{
    let mut r: Vec<char> = Vec::new();
    let mut i: usize = lo;
    while i < hi
        invariant
            lo <= i <= hi <= s@.len(),
            r@ == s@.subrange(lo as int, i as int),
        decreases hi - i,
    {
        r.push(s[i]);
        i = i + 1;
        assert(r@ =~= s@.subrange(lo as int, i as int));
    }
    r
}

/// The characters from position `k` on.
pub fn tail_from(s: &Vec<char>, k: usize) -> (r: Vec<char>)
    requires
        k <= s@.len(),
    ensures
        r@ == s@.skip(k as int),
{
    let mut r: Vec<char> = Vec::new();
    let mut i: usize = k;
    while i < s.len()
        invariant
            k <= i <= s@.len(),
            r@ == s@.subrange(k as int, i as int),
        decreases s@.len() - i,
    {
        r.push(s[i]);
        i = i + 1;
        assert(r@ =~= s@.subrange(k as int, i as int));
    }
    assert(r@ =~= s@.skip(k as int));
    r
}

/// The fragments from `i` on joined with the separator between neighbours.
pub open spec fn spec_join_from(frags: Seq<Seq<char>>, i: int, sep: char) -> Seq<char>
    decreases frags.len() - i,
{
    if i < 0 || i >= frags.len() {
        Seq::empty()
    } else if i == frags.len() - 1 {
        frags[i]
    } else {
        frags[i] + seq![sep] + spec_join_from(frags, i + 1, sep)
    }
}

/// Joins the fragments from `start` on, re-inserting the separator.
#[verifier::loop_isolation(false)]
pub fn join_from(frags: &Vec<Vec<char>>, start: usize, sep: char) -> (r: Vec<char>)
    ensures
        r@ == spec_join_from(views_of(frags@), start as int, sep),
{
    let ghost fv = views_of(frags@);
    let mut r: Vec<char> = Vec::new();
    let mut i: usize = start;
    proof {
        assert(r@ + spec_join_from(fv, start as int, sep) =~= spec_join_from(
            fv,
            start as int,
            sep,
        ));
    }
    while i < frags.len()
        invariant
            start <= i,
            spec_join_from(fv, start as int, sep) == r@ + spec_join_from(fv, i as int, sep),
        decreases frags@.len() - i,
    {
        proof {
            assert(fv[i as int] == frags@[i as int]@);
        }
        let f = &frags[i];
        let ghost r0 = r@;
        let mut k: usize = 0;
        while k < f.len()
            invariant
                k <= f@.len(),
                r@ == r0 + f@.subrange(0, k as int),
            decreases f@.len() - k,
        {
            r.push(f[k]);
            k = k + 1;
            assert(r@ =~= r0 + f@.subrange(0, k as int));
        }
        proof {
            assert(r@ =~= r0 + fv[i as int]);
        }
        if i + 1 < frags.len() {
            r.push(sep);
            proof {
                assert(spec_join_from(fv, i as int, sep) == fv[i as int] + seq![sep]
                    + spec_join_from(fv, i as int + 1, sep));
                assert(r0 + (fv[i as int] + seq![sep] + spec_join_from(fv, i as int + 1, sep))
                    =~= r@ + spec_join_from(fv, i as int + 1, sep));
            }
        } else {
            proof {
                assert(spec_join_from(fv, i as int, sep) == fv[i as int]);
                assert(spec_join_from(fv, i as int + 1, sep) =~= Seq::<char>::empty());
                assert(r0 + fv[i as int] =~= r@ + Seq::<char>::empty());
            }
        }
        i = i + 1;
    }
    proof {
        assert(spec_join_from(fv, i as int, sep) =~= Seq::<char>::empty());
        assert(r@ + Seq::<char>::empty() =~= r@);
    }
    r
}

/// The sequence with its leading white space removed.
pub open spec fn spec_trim_front(s: Seq<char>) -> Seq<char>
    decreases s.len(),
{
    if s.len() > 0 && is_unicode_space(s[0]) {
        spec_trim_front(s.drop_first())
    } else {
        s
    }
}

/// The sequence with its trailing white space removed.
pub open spec fn spec_trim_back(s: Seq<char>) -> Seq<char>
    decreases s.len(),
{
    if s.len() > 0 && is_unicode_space(s.last()) {
        spec_trim_back(s.drop_last())
    } else {
        s
    }
}

/// The sequence with leading and trailing white space removed.
pub open spec fn spec_trim(s: Seq<char>) -> Seq<char> {
    spec_trim_back(spec_trim_front(s))
}

/// Removes leading and trailing white space.
pub fn trim(s: &Vec<char>) -> (r: Vec<char>)
    ensures
        r@ == spec_trim(s@),
{
    let mut a: usize = 0;
    proof {
        assert(s@.skip(0) =~= s@);
    }
    while a < s.len() && is_space(s[a])
        invariant
            a <= s@.len(),
            spec_trim_front(s@) == spec_trim_front(s@.skip(a as int)),
        decreases s@.len() - a,
    {
        proof {
            assert(s@.skip(a as int).drop_first() =~= s@.skip(a as int + 1));
        }
        a = a + 1;
    }
    let ghost t = s@.skip(a as int);
    proof {
        assert(spec_trim_front(s@) == t);
        assert(t =~= s@.subrange(a as int, s@.len() as int));
    }
    let mut b: usize = s.len();
    while b > a && is_space(s[b - 1])
        invariant
            a <= b <= s@.len(),
            spec_trim_back(t) == spec_trim_back(s@.subrange(a as int, b as int)),
        decreases b,
    {
        proof {
            assert(s@.subrange(a as int, b as int).drop_last() =~= s@.subrange(
                a as int,
                b as int - 1,
            ));
        }
        b = b - 1;
    }
    proof {
        assert(spec_trim_back(t) == s@.subrange(a as int, b as int));
    }
    let mut r: Vec<char> = Vec::new();
    let mut i: usize = a;
    while i < b
        invariant
            a <= i <= b <= s@.len(),
            r@ == s@.subrange(a as int, i as int),
        decreases b - i,
    {
        r.push(s[i]);
        i = i + 1;
        assert(r@ =~= s@.subrange(a as int, i as int));
    }
    r
}

} // verus!
