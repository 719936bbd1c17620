use vstd::prelude::*;
use crate::text::views_of;

verus! {

/// Scanning for the closing quote: fragments from `j` on are joined onto
/// `acc` with the separator re-inserted until the accumulated text ends in a
/// quote; that quote is stripped and the rest is the token. A quote that is
/// never closed exhausts the fragments and yields no token.
pub open spec fn spec_close_quote(
    frags: Seq<Seq<char>>,
    j: int,
    sep: char,
    acc: Seq<char>,
) -> Option<(Seq<char>, int)>
    decreases frags.len() - j,
{
    if acc.len() > 0 && acc.last() == '\'' {
        Some((acc.drop_last(), j))
    } else if j < 0 || j >= frags.len() {
        None
    } else {
        spec_close_quote(frags, j + 1, sep, acc + seq![sep] + frags[j])
    }
}

/// The next logical token drawn from the fragments at `i` on: empty
/// fragments are skipped; a fragment opening with a quote is completed by
/// [`spec_close_quote`]; any other fragment is the token itself. The second
/// component is the index of the first fragment not consumed.
pub open spec fn spec_next_quoted(frags: Seq<Seq<char>>, i: int, sep: char) -> Option<
    (Seq<char>, int),
>
    decreases frags.len() - i,
{
    if i < 0 || i >= frags.len() {
        None
    } else if frags[i].len() == 0 {
        spec_next_quoted(frags, i + 1, sep)
    } else if frags[i][0] == '\'' {
        spec_close_quote(frags, i + 1, sep, frags[i].drop_first())
    } else {
        Some((frags[i], i + 1))
    }
}

pub proof fn lemma_close_quote_advances(frags: Seq<Seq<char>>, j: int, sep: char, acc: Seq<char>)
    requires
        0 <= j <= frags.len(),
    ensures
        spec_close_quote(frags, j, sep, acc) matches Some((t, k)) ==> j <= k <= frags.len(),
    decreases frags.len() - j,
{
    if !(acc.len() > 0 && acc.last() == '\'') && j < frags.len() {
        lemma_close_quote_advances(frags, j + 1, sep, acc + seq![sep] + frags[j]);
    }
}

pub proof fn lemma_next_quoted_advances(frags: Seq<Seq<char>>, i: int, sep: char)
    requires
        0 <= i,
    ensures
        spec_next_quoted(frags, i, sep) matches Some((t, k)) ==> i < k <= frags.len(),
    decreases frags.len() - i,
{
    if i < frags.len() {
        if frags[i].len() == 0 {
            lemma_next_quoted_advances(frags, i + 1, sep);
        } else if frags[i][0] == '\'' {
            lemma_close_quote_advances(frags, i + 1, sep, frags[i].drop_first());
        }
    }
}

/// Draws the next logical token from the fragments, starting at `start`:
/// the token and the index of the first fragment not consumed, or `None`
/// when the fragments are exhausted before a well-formed token is found.
pub fn next_quoted(fragments: &Vec<Vec<char>>, start: usize, split: char) -> (r: Option<
    (Vec<char>, usize),
>)
    ensures
        match r {
            Some((tok, next)) => spec_next_quoted(views_of(fragments@), start as int, split)
                == Some((tok@, next as int)) && next <= fragments@.len(),
            None => spec_next_quoted(views_of(fragments@), start as int, split) is None,
        },
{
    let ghost fv = views_of(fragments@);
    let n = fragments.len();
    let mut i = start;
    while i < n && fragments[i].len() == 0
        invariant
            start <= i,
            n == fragments@.len(),
            fv == views_of(fragments@),
            spec_next_quoted(fv, start as int, split) == spec_next_quoted(fv, i as int, split),
        decreases n - i,
    {
        proof {
            assert(fv[i as int] == fragments@[i as int]@);
        }
        i = i + 1;
    }
    if i >= n {
        return None;
    }
    proof {
        assert(fv[i as int] == fragments@[i as int]@);
    }
    let frag = &fragments[i];
    if frag[0] == '\'' {
        let mut acc: Vec<char> = Vec::new();
        let mut k: usize = 1;
        while k < frag.len()
            invariant
                1 <= k <= frag@.len(),
                acc@ == frag@.subrange(1, k as int),
            decreases frag@.len() - k,
        {
            acc.push(frag[k]);
            k = k + 1;
            assert(acc@ =~= frag@.subrange(1, k as int));
        }
        proof {
            assert(acc@ =~= fv[i as int].drop_first());
        }
        let ghost whole = spec_close_quote(fv, i as int + 1, split, acc@);
        proof {
            assert(fv[i as int].len() != 0 && fv[i as int][0] == '\'');
            assert(spec_next_quoted(fv, i as int, split) == whole);
        }
        let mut j: usize = i + 1;
        while !(acc.len() > 0 && acc[acc.len() - 1] == '\'')
            invariant
                i < j <= n,
                n == fragments@.len(),
                fv == views_of(fragments@),
                whole == spec_close_quote(fv, j as int, split, acc@),
                spec_next_quoted(fv, start as int, split) == whole,
            decreases n - j,
        {
            if j >= n {
                return None;
            }
            proof {
                assert(fv[j as int] == fragments@[j as int]@);
            }
            let ghost acc0 = acc@;
            acc.push(split);
            let nf = &fragments[j];
            assert(acc@ =~= acc0.push(split) + nf@.subrange(0, 0));
            let mut k2: usize = 0;
            while k2 < nf.len()
                invariant
                    k2 <= nf@.len(),
                    acc@ == acc0.push(split) + nf@.subrange(0, k2 as int),
                decreases nf@.len() - k2,
            {
                acc.push(nf[k2]);
                k2 = k2 + 1;
                assert(acc@ =~= acc0.push(split) + nf@.subrange(0, k2 as int));
            }
            proof {
                assert(acc@ =~= acc0 + seq![split] + fv[j as int]);
            }
            j = j + 1;
        }
        proof {
            assert(acc@.last() == '\'');
            assert(whole == Some((acc@.drop_last(), j as int)));
        }
        let _closing = acc.pop();
        Some((acc, j))
    } else {
        let mut tok: Vec<char> = Vec::new();
        let mut k: usize = 0;
        while k < frag.len()
            invariant
                k <= frag@.len(),
                tok@ == frag@.subrange(0, k as int),
            decreases frag@.len() - k,
        {
            tok.push(frag[k]);
            k = k + 1;
            assert(tok@ =~= frag@.subrange(0, k as int));
        }
        proof {
            assert(tok@ =~= fv[i as int]);
        }
        Some((tok, i + 1))
    }
}

/// All logical tokens of the fragments from `i` on, in order.
pub open spec fn spec_tokens(frags: Seq<Seq<char>>, i: int, sep: char) -> Seq<Seq<char>>
    decreases frags.len() - i,
    when 0 <= i
{
    match spec_next_quoted(frags, i, sep) {
        None => Seq::empty(),
        Some((t, j)) => {
            proof {
                lemma_next_quoted_advances(frags, i, sep);
            }
            seq![t] + spec_tokens(frags, j, sep)
        },
    }
}

/// Collects all logical tokens of the fragments from `start` on.
pub fn collect_tokens(fragments: &Vec<Vec<char>>, start: usize, split: char) -> (r: Vec<Vec<char>>)
    ensures
        views_of(r@) == spec_tokens(views_of(fragments@), start as int, split),
{
    let ghost fv = views_of(fragments@);
    let mut r: Vec<Vec<char>> = Vec::new();
    let mut i = start;
    proof {
        assert(views_of(r@) + spec_tokens(fv, start as int, split) =~= spec_tokens(
            fv,
            start as int,
            split,
        ));
    }
    while i <= fragments.len()
        invariant
            fv == views_of(fragments@),
            spec_tokens(fv, start as int, split) == views_of(r@) + spec_tokens(
                fv,
                i as int,
                split,
            ),
        decreases fragments@.len() + 1 - i,
    {
        match next_quoted(fragments, i, split) {
            Some((tok, next)) => {
                proof {
                    lemma_next_quoted_advances(fv, i as int, split);
                    assert(spec_tokens(fv, i as int, split) == seq![tok@] + spec_tokens(
                        fv,
                        next as int,
                        split,
                    ));
                }
                r.push(tok);
                proof {
                    assert(views_of(r@) =~= views_of(r@.drop_last()) + seq![r@.last()@]);
                    assert(views_of(r@.drop_last()) + (seq![tok@] + spec_tokens(
                        fv,
                        next as int,
                        split,
                    )) =~= views_of(r@) + spec_tokens(fv, next as int, split));
                }
                i = next;
            },
            None => {
                proof {
                    assert(spec_tokens(fv, i as int, split) =~= Seq::<Seq<char>>::empty());
                    assert(views_of(r@) + Seq::<Seq<char>>::empty() =~= views_of(r@));
                }
                return r;
            },
        }
    }
    proof {
        assert(spec_next_quoted(fv, i as int, split) is None);
        assert(spec_tokens(fv, i as int, split) =~= Seq::<Seq<char>>::empty());
        assert(views_of(r@) + Seq::<Seq<char>>::empty() =~= views_of(r@));
    }
    r
}

} // verus!
