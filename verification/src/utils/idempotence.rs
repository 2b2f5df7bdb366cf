//! When a repair changes nothing, and when a second pass of repairs changes
//! nothing more.
//!
//! A replacement leaves a text as it is where the text does not hold what
//! is replaced. Whether the result of a replacement is such a text depends
//! on how the two sides of the replacement overlap; `apart` is the condition
//! under which what is put in can make no new occurrence.

use crate::text::{
    found, holds, lemma_found_from, lemma_next_of_passed, lemma_next_of_skips, line_seq,
    matches_at, next_of, replaced, without_cr,
};
use crate::utils::scrubbing::{
    is_continuation, kept_lines, pair_views, repaired, repairs_of, response_repairs, scrub_pass,
    scrub_passes, Part, ELLIPSIS, GETADDRESSMEMPOOL, HEX_STRINGS, LISTUNSPENT, Z_LISTUNSPENT,
    Z_VALIDATEADDRESS,
};
use vstd::prelude::*;

verus! {

/// `pat` stands nowhere in `s`.
pub open spec fn free_of(s: Seq<char>, pat: Seq<char>) -> bool {
    forall|i: int| !matches_at(s, pat, i)
}

/// `pat` cannot stand across an end of `put`: `put` is not empty, neither
/// text holds the other, no proper prefix of `pat` ends `put` and no proper
/// suffix of `pat` starts `put`.
pub open spec fn apart(pat: Seq<char>, put: Seq<char>) -> bool {
    &&& put.len() > 0
    &&& free_of(put, pat)
    &&& free_of(pat, put)
    &&& forall|k: int|
        0 < k < pat.len() && k <= put.len() ==> #[trigger] pat.subrange(pat.len() - k, pat.len() as int)
            != put.subrange(0, k)
    &&& forall|k: int|
        0 < k < pat.len() && k <= put.len() ==> #[trigger] pat.subrange(0, k) != put.subrange(
            put.len() - k,
            put.len() as int,
        )
}

/// None of the repairs finds in `text` what it replaces.
pub open spec fn clean(text: Seq<char>, repairs: Seq<(Seq<char>, Seq<char>)>) -> bool {
    forall|i: int| 0 <= i < repairs.len() ==> free_of(text, (#[trigger] repairs[i]).0)
}

/// `free_of` and `holds` say opposite things.
pub proof fn lemma_free_of_holds(s: Seq<char>, pat: Seq<char>)
    ensures
        free_of(s, pat) <==> !holds(s, pat),
{
    lemma_found_from(s, pat, 0);
    if !holds(s, pat) {
        assert forall|i: int| !matches_at(s, pat, i) by {
            if i >= 0 {
            }
        }
    }
}

/// A replacement changes nothing in a text that does not hold what is replaced.
pub proof fn lemma_replaced_free(s: Seq<char>, from: Seq<char>, to: Seq<char>)
    requires
        free_of(s, from),
    ensures
        replaced(s, from, to) == s,
    decreases s.len(),
{
    if from.len() > 0 && s.len() > 0 {
        assert(!matches_at(s, from, 0));
        let rest = s.skip(1);
        assert forall|i: int| !matches_at(rest, from, i) by {
            if matches_at(rest, from, i) {
                assert(rest.subrange(i, i + from.len()) =~= s.subrange(i + 1, i + 1 + from.len()));
                assert(matches_at(s, from, i + 1));
            }
        }
        lemma_replaced_free(rest, from, to);
        assert(seq![s[0]] + rest =~= s);
    }
}

/// A replacement keeps the text before the first occurrence, puts `to` in
/// place of that occurrence, and goes on behind it.
pub proof fn lemma_replaced_first(s: Seq<char>, from: Seq<char>, to: Seq<char>, p: int)
    requires
        from.len() > 0,
        matches_at(s, from, p),
        forall|j: int| 0 <= j < p ==> !matches_at(s, from, j),
    ensures
        replaced(s, from, to) == s.take(p) + to + replaced(s.skip(p + from.len()), from, to),
    decreases p,
{
    if p == 0 {
        assert(s.take(0) + to =~= to);
        assert(s.subrange(0, from.len() as int) == from);
    } else {
        let rest = s.skip(1);
        assert(rest.subrange(p - 1, p - 1 + from.len()) =~= s.subrange(p, p + from.len()));
        assert forall|j: int| 0 <= j < p - 1 implies !matches_at(rest, from, j) by {
            if matches_at(rest, from, j) {
                assert(rest.subrange(j, j + from.len()) =~= s.subrange(j + 1, j + 1 + from.len()));
                assert(matches_at(s, from, j + 1));
            }
        }
        lemma_replaced_first(rest, from, to, p - 1);
        assert(rest.skip(p - 1 + from.len()) =~= s.skip(p + from.len()));
        assert(seq![s[0]] + (rest.take(p - 1) + to + replaced(s.skip(p + from.len()), from, to))
            =~= s.take(p) + to + replaced(s.skip(p + from.len()), from, to));
    }
}

/// An occurrence of `pat` in `head + put + tail` lies inside `head` or
/// inside `tail` where `pat` and `put` are apart.
pub proof fn lemma_apart(head: Seq<char>, put: Seq<char>, tail: Seq<char>, pat: Seq<char>, i: int)
    requires
        apart(pat, put),
        matches_at(head + put + tail, pat, i),
    ensures
        matches_at(head, pat, i) || matches_at(tail, pat, i - head.len() - put.len()),
{
    let w = head + put + tail;
    let n = pat.len() as int;
    let h = head.len() as int;
    let m = put.len() as int;
    assert(w.subrange(i, i + n) == pat);
    if i + n <= h {
        assert(head.subrange(i, i + n) =~= w.subrange(i, i + n));
    } else if i >= h + m {
        assert(tail.subrange(i - h - m, i - h - m + n) =~= w.subrange(i, i + n));
    } else if i < h {
        if i + n <= h + m {
            let k = i + n - h;
            assert(pat.subrange(n - k, n) =~= put.subrange(0, k)) by {
                assert forall|x: int| 0 <= x < k implies pat.subrange(n - k, n)[x] == put.subrange(
                    0,
                    k,
                )[x] by {
                    assert(pat[n - k + x] == w.subrange(i, i + n)[n - k + x]);
                    assert(w[h + x] == put[x]);
                }
            }
        } else {
            let j = h - i;
            assert(pat.subrange(j, j + m) =~= put) by {
                assert forall|x: int| 0 <= x < m implies pat.subrange(j, j + m)[x] == put[x] by {
                    assert(pat[j + x] == w.subrange(i, i + n)[j + x]);
                    assert(w[h + x] == put[x]);
                }
            }
            assert(matches_at(pat, put, j));
        }
    } else {
        if i + n <= h + m {
            let j = i - h;
            assert(put.subrange(j, j + n) =~= pat) by {
                assert forall|x: int| 0 <= x < n implies put.subrange(j, j + n)[x] == pat[x] by {
                    assert(pat[x] == w.subrange(i, i + n)[x]);
                    assert(w[i + x] == put[j + x]);
                }
            }
            assert(matches_at(put, pat, j));
        } else {
            let k = h + m - i;
            assert(pat.subrange(0, k) =~= put.subrange(m - k, m)) by {
                assert forall|x: int| 0 <= x < k implies pat.subrange(0, k)[x] == put.subrange(
                    m - k,
                    m,
                )[x] by {
                    assert(pat[x] == w.subrange(i, i + n)[x]);
                    assert(w[i + x] == put[m - k + x]);
                }
            }
        }
    }
}

/// The first occurrence of `from` in a text that holds it.
proof fn lemma_first_occurrence(s: Seq<char>, from: Seq<char>) -> (p: int)
    requires
        !free_of(s, from),
    ensures
        matches_at(s, from, p),
        forall|j: int| 0 <= j < p ==> !matches_at(s, from, j),
{
    lemma_free_of_holds(s, from);
    lemma_found_from(s, from, 0);
    found(s, from)->Some_0
}

/// A replacement puts no occurrence of `pat` into a text that holds none,
/// where `pat` and what is put in are apart.
pub proof fn lemma_replaced_stays_free(s: Seq<char>, from: Seq<char>, to: Seq<char>, pat: Seq<char>)
    requires
        apart(pat, to),
        free_of(s, pat),
    ensures
        free_of(replaced(s, from, to), pat),
    decreases s.len(),
{
    if from.len() > 0 && !free_of(s, from) {
        let p = lemma_first_occurrence(s, from);
        lemma_replaced_first(s, from, to, p);
        let head = s.take(p);
        let tail = s.skip(p + from.len());
        assert forall|i: int| !matches_at(tail, pat, i) by {
            if matches_at(tail, pat, i) {
                assert(tail.subrange(i, i + pat.len()) =~= s.subrange(
                    p + from.len() + i,
                    p + from.len() + i + pat.len(),
                ));
                assert(matches_at(s, pat, p + from.len() + i));
            }
        }
        lemma_replaced_stays_free(tail, from, to, pat);
        let after = replaced(tail, from, to);
        assert forall|i: int| !matches_at(head + to + after, pat, i) by {
            if matches_at(head + to + after, pat, i) {
                lemma_apart(head, to, after, pat, i);
                if matches_at(head, pat, i) {
                    assert(head.subrange(i, i + pat.len()) =~= s.subrange(i, i + pat.len()));
                    assert(matches_at(s, pat, i));
                }
            }
        }
    } else {
        if from.len() > 0 {
            lemma_replaced_free(s, from, to);
        }
    }
}

/// What a replacement gives holds nothing more to replace, where the two
/// sides of the replacement are apart.
pub proof fn lemma_replaced_is_free(s: Seq<char>, from: Seq<char>, to: Seq<char>)
    requires
        from.len() > 0,
        apart(from, to),
    ensures
        free_of(replaced(s, from, to), from),
    decreases s.len(),
{
    if !free_of(s, from) {
        let p = lemma_first_occurrence(s, from);
        lemma_replaced_first(s, from, to, p);
        let head = s.take(p);
        let tail = s.skip(p + from.len());
        lemma_replaced_is_free(tail, from, to);
        let after = replaced(tail, from, to);
        assert forall|i: int| !matches_at(head + to + after, from, i) by {
            if matches_at(head + to + after, from, i) {
                lemma_apart(head, to, after, from, i);
                if matches_at(head, from, i) {
                    assert(head.subrange(i, i + from.len()) =~= s.subrange(i, i + from.len()));
                    assert(matches_at(s, from, i));
                }
            }
        }
    } else {
        lemma_replaced_free(s, from, to);
    }
}

/// Repairs change nothing in a text that is clean of them.
pub proof fn lemma_repaired_clean(text: Seq<char>, repairs: Seq<(Seq<char>, Seq<char>)>)
    requires
        clean(text, repairs),
    ensures
        repaired(text, repairs) == text,
    decreases repairs.len(),
{
    if repairs.len() > 0 {
        assert forall|i: int| 0 <= i < repairs.drop_last().len() implies free_of(
            text,
            (#[trigger] repairs.drop_last()[i]).0,
        ) by {
            assert(repairs.drop_last()[i] == repairs[i]);
        }
        lemma_repaired_clean(text, repairs.drop_last());
        assert(free_of(text, repairs[repairs.len() - 1].0));
        lemma_replaced_free(text, repairs.last().0, repairs.last().1);
    }
}

/// Repairs that each put in less than they take out.
pub open spec fn shortening(repairs: Seq<(Seq<char>, Seq<char>)>) -> bool {
    forall|i: int| 0 <= i < repairs.len() ==> (#[trigger] repairs[i]).1.len() < repairs[i].0.len()
}

/// A replacement that puts in less than it takes out makes a text shorter
/// or leaves it as it is.
pub proof fn lemma_replaced_shorter(s: Seq<char>, from: Seq<char>, to: Seq<char>)
    requires
        to.len() < from.len(),
    ensures
        replaced(s, from, to).len() <= s.len(),
        replaced(s, from, to).len() == s.len() ==> replaced(s, from, to) == s,
    decreases s.len(),
{
    if s.len() > 0 {
        if matches_at(s, from, 0) {
            lemma_replaced_shorter(s.skip(from.len() as int), from, to);
        } else {
            lemma_replaced_shorter(s.skip(1), from, to);
            if replaced(s, from, to).len() == s.len() {
                assert(seq![s[0]] + s.skip(1) =~= s);
            }
        }
    }
}

/// Shortening repairs make a text shorter or leave it as it is.
pub proof fn lemma_repaired_shorter(text: Seq<char>, repairs: Seq<(Seq<char>, Seq<char>)>)
    requires
        shortening(repairs),
    ensures
        repaired(text, repairs).len() <= text.len(),
        repaired(text, repairs).len() == text.len() ==> repaired(text, repairs) == text,
    decreases repairs.len(),
{
    if repairs.len() > 0 {
        let before = repairs.drop_last();
        assert forall|i: int| 0 <= i < before.len() implies (#[trigger] before[i]).1.len()
            < before[i].0.len() by {
            assert(before[i] == repairs[i]);
        }
        lemma_repaired_shorter(text, before);
        assert(repairs[repairs.len() - 1] == repairs.last());
        lemma_replaced_shorter(repaired(text, before), repairs.last().0, repairs.last().1);
    }
}

/// Passes of shortening repairs end: each pass that changes the text makes
/// it shorter.
pub proof fn lemma_shortening_settles(rpc_name: Seq<char>, part: Part, text: Seq<char>, fuel: nat)
    requires
        forall|t: Seq<char>| #[trigger]
            scrub_pass(rpc_name, part, t) == repaired(t, repairs_of(rpc_name, part)),
        shortening(repairs_of(rpc_name, part)),
        fuel >= text.len(),
    ensures
        scrub_passes(rpc_name, part, text, fuel) is Some,
    decreases fuel,
{
    let next = scrub_pass(rpc_name, part, text);
    lemma_repaired_shorter(text, repairs_of(rpc_name, part));
    if next != text && fuel > 0 {
        lemma_shortening_settles(rpc_name, part, next, (fuel - 1) as nat);
    }
}

/// The repairs of the ellipsis are shortening.
pub proof fn lemma_ellipsis_shortening()
    ensures
        shortening(pair_views(ELLIPSIS@)),
{
    reveal_strlit(", ...\n");
    reveal_strlit(",...\n");
    reveal_strlit("");
    assert(ELLIPSIS[0] == (", ...\n", ""));
    assert(ELLIPSIS[1] == (",...\n", ""));
}

/// Repairs after which a text is clean of them: no repair replaces the
/// empty text, and what a repair puts in is apart from what it replaces and
/// from what the repairs before it replace.
pub open spec fn settled(repairs: Seq<(Seq<char>, Seq<char>)>) -> bool {
    &&& forall|i: int| 0 <= i < repairs.len() ==> (#[trigger] repairs[i]).0.len() > 0
    &&& forall|i: int, j: int|
        0 <= i <= j < repairs.len() ==> apart((#[trigger] repairs[i]).0, (#[trigger] repairs[j]).1)
}

/// What settled repairs give is clean of them.
pub proof fn lemma_settled_clean(text: Seq<char>, repairs: Seq<(Seq<char>, Seq<char>)>)
    requires
        settled(repairs),
    ensures
        clean(repaired(text, repairs), repairs),
    decreases repairs.len(),
{
    if repairs.len() > 0 {
        let before = repairs.drop_last();
        let last = repairs.last();
        let n = repairs.len() - 1;
        assert forall|i: int, j: int| 0 <= i <= j < before.len() implies apart(
            (#[trigger] before[i]).0,
            (#[trigger] before[j]).1,
        ) by {
            assert(before[i] == repairs[i] && before[j] == repairs[j]);
        }
        assert forall|i: int| 0 <= i < before.len() implies (#[trigger] before[i]).0.len() > 0 by {
            assert(before[i] == repairs[i]);
        }
        lemma_settled_clean(text, before);
        let mid = repaired(text, before);
        assert(last == repairs[n]);
        assert forall|i: int| 0 <= i < repairs.len() implies free_of(
            repaired(text, repairs),
            (#[trigger] repairs[i]).0,
        ) by {
            assert(apart(repairs[i].0, repairs[n].1));
            if i < n {
                assert(before[i] == repairs[i]);
                lemma_replaced_stays_free(mid, last.0, last.1, repairs[i].0);
            } else {
                lemma_replaced_is_free(mid, last.0, last.1);
            }
        }
    }
}

/// `pat` laid on `s` at `j` differs from `s` at its place `m` or at its
/// place `n`.
pub open spec fn differs(s: Seq<char>, pat: Seq<char>, j: int, m: int, n: int) -> bool {
    s[j + m] != pat[m] || s[j + n] != pat[n]
}

/// `s` does not hold `pat`, given two places of `pat` of which one differs
/// from what `s` holds there, wherever `pat` is laid on `s`.
pub proof fn lemma_free_by_places(s: Seq<char>, pat: Seq<char>, m: int, n: int)
    requires
        0 <= m < pat.len(),
        0 <= n < pat.len(),
        forall|j: int| 0 <= j && j + pat.len() <= s.len() ==> #[trigger] differs(s, pat, j, m, n),
    ensures
        free_of(s, pat),
{
    assert forall|i: int| !matches_at(s, pat, i) by {
        if matches_at(s, pat, i) {
            assert(differs(s, pat, i, m, n));
            assert(s.subrange(i, i + pat.len())[m] == pat[m]);
            assert(s.subrange(i, i + pat.len())[n] == pat[n]);
        }
    }
}

/// The last `k` characters of `pat` differ from the first `k` of `put`: in
/// their first place or, where they have one, in their place `n`.
pub open spec fn suffix_differs(pat: Seq<char>, put: Seq<char>, k: int, n: int) -> bool {
    pat[pat.len() - k] != put[0] || (0 <= n < k && pat[pat.len() - k + n] != put[n])
}

/// The first `k` characters of `pat` differ from the last `k` of `put`: in
/// their last place or, where they have one, in the place `n` before it.
pub open spec fn prefix_differs(pat: Seq<char>, put: Seq<char>, k: int, n: int) -> bool {
    pat[k - 1] != put[put.len() - 1] || (0 <= n < k && pat[k - 1 - n] != put[put.len() - 1 - n])
}

/// `pat` and `put` are apart where neither holds the other and every
/// proper suffix of `pat` differs from the prefix of `put` of its length,
/// every proper prefix of `pat` from the suffix of `put` of its length.
pub proof fn lemma_apart_by_places(pat: Seq<char>, put: Seq<char>, n: int, m: int)
    requires
        put.len() > 0,
        free_of(put, pat),
        free_of(pat, put),
        forall|k: int| 0 < k < pat.len() && k <= put.len() ==> #[trigger] suffix_differs(pat, put, k, n),
        forall|k: int| 0 < k < pat.len() && k <= put.len() ==> #[trigger] prefix_differs(pat, put, k, m),
    ensures
        apart(pat, put),
{
    assert forall|k: int| 0 < k < pat.len() && k <= put.len() implies #[trigger] pat.subrange(
        pat.len() - k,
        pat.len() as int,
    ) != put.subrange(0, k) by {
        assert(suffix_differs(pat, put, k, n));
        let suffix = pat.subrange(pat.len() - k, pat.len() as int);
        assert(suffix[0] == pat[pat.len() - k]);
        assert(put.subrange(0, k)[0] == put[0]);
        if 0 <= n < k {
            assert(suffix[n] == pat[pat.len() - k + n]);
            assert(put.subrange(0, k)[n] == put[n]);
        }
    }
    assert forall|k: int| 0 < k < pat.len() && k <= put.len() implies #[trigger] pat.subrange(0, k)
        != put.subrange(put.len() - k, put.len() as int) by {
        assert(prefix_differs(pat, put, k, m));
        let suffix = put.subrange(put.len() - k, put.len() as int);
        assert(pat.subrange(0, k)[k - 1] == pat[k - 1]);
        assert(suffix[k - 1] == put[put.len() - 1]);
        if 0 <= m < k {
            assert(pat.subrange(0, k)[k - 1 - m] == pat[k - 1 - m]);
            assert(suffix[k - 1 - m] == put[put.len() - 1 - m]);
        }
    }
}

/// `pat` and `put` are apart, given the places at which `pat` laid on
/// `put` differs from it, those at which `put` laid on `pat` does, and
/// those at which the ends of `pat` differ from the ends of `put`.
pub proof fn lemma_apart_at(
    pat: Seq<char>,
    put: Seq<char>,
    in_put: (int, int),
    in_pat: (int, int),
    at_start: int,
    at_end: int,
)
    requires
        pat.len() > 0,
        put.len() > 0,
        0 <= in_put.0 < pat.len(),
        0 <= in_put.1 < pat.len(),
        0 <= in_pat.0 < put.len(),
        0 <= in_pat.1 < put.len(),
        forall|j: int|
            0 <= j && j + pat.len() <= put.len() ==> #[trigger] differs(
                put,
                pat,
                j,
                in_put.0,
                in_put.1,
            ),
        forall|j: int|
            0 <= j && j + put.len() <= pat.len() ==> #[trigger] differs(
                pat,
                put,
                j,
                in_pat.0,
                in_pat.1,
            ),
        forall|k: int|
            0 < k < pat.len() && k <= put.len() ==> #[trigger] suffix_differs(pat, put, k, at_start),
        forall|k: int|
            0 < k < pat.len() && k <= put.len() ==> #[trigger] prefix_differs(pat, put, k, at_end),
    ensures
        apart(pat, put),
{
    lemma_free_by_places(put, pat, in_put.0, in_put.1);
    lemma_free_by_places(pat, put, in_pat.0, in_pat.1);
    lemma_apart_by_places(pat, put, at_start, at_end);
}

/// The repairs of `listunspent` are settled.
pub proof fn lemma_listunspent_settled()
    ensures
        settled(response_repairs("listunspent"@)),
{
    reveal_strlit("listunspent");
    reveal_strlit("(bool)");
    reveal_strlit("(boolean)");
    assert(LISTUNSPENT[0] == ("(bool)", "(boolean)"));
    let repairs = response_repairs("listunspent"@);
    assert(repairs =~= pair_views(LISTUNSPENT@));
    lemma_apart_at("(bool)"@, "(boolean)"@, (0, 5), (0, 0), 0, 0);
}

/// The repairs of `getaddressmempool` are settled.
pub proof fn lemma_getaddressmempool_settled()
    ensures
        settled(response_repairs("getaddressmempool"@)),
{
    reveal_strlit("getaddressmempool");
    reveal_strlit("listunspent");
    reveal_strlit("number");
    reveal_strlit("numeric");
    assert("getaddressmempool"@.len() != "listunspent"@.len());
    assert(GETADDRESSMEMPOOL[0] == ("number", "numeric"));
    let repairs = response_repairs("getaddressmempool"@);
    assert(repairs =~= pair_views(GETADDRESSMEMPOOL@));
    lemma_apart_at("number"@, "numeric"@, (3, 3), (0, 0), 0, 0);
}

/// The repairs of `z_validateaddress` are settled.
pub proof fn lemma_z_validateaddress_settled()
    ensures
        settled(response_repairs("z_validateaddress"@)),
{
    reveal_strlit("z_validateaddress");
    reveal_strlit("listunspent");
    reveal_strlit("getaddressmempool");
    reveal_strlit("[sprout]");
    reveal_strlit("<sprout>");
    reveal_strlit("[sapling]");
    reveal_strlit("<sapling>");
    assert("z_validateaddress"@.len() != "listunspent"@.len());
    assert("z_validateaddress"@[0] != "getaddressmempool"@[0]);
    assert(Z_VALIDATEADDRESS[0] == ("[sprout]", "<sprout>"));
    assert(Z_VALIDATEADDRESS[1] == ("[sapling]", "<sapling>"));
    let repairs = response_repairs("z_validateaddress"@);
    assert(repairs =~= pair_views(Z_VALIDATEADDRESS@));
    lemma_apart_at("[sprout]"@, "<sprout>"@, (0, 0), (0, 0), 0, 0);
    lemma_apart_at("[sprout]"@, "<sapling>"@, (0, 0), (0, 0), 0, 0);
    lemma_apart_at("[sapling]"@, "<sapling>"@, (0, 0), (0, 0), 0, 0);
}

/// The repairs of `getblockdeltas` are settled.
pub proof fn lemma_getblockdeltas_settled()
    ensures
        settled(response_repairs("getblockdeltas"@)),
{
    reveal_strlit("getblockdeltas");
    reveal_strlit("listunspent");
    reveal_strlit("getaddressmempool");
    reveal_strlit("z_validateaddress");
    reveal_strlit("hex string");
    reveal_strlit("hexadecimal");
    reveal_strlit("hexstring");
    assert("getblockdeltas"@.len() != "listunspent"@.len());
    assert("getblockdeltas"@.len() != "getaddressmempool"@.len());
    assert("getblockdeltas"@.len() != "z_validateaddress"@.len());
    assert(HEX_STRINGS[0] == ("hex string", "hexadecimal"));
    assert(HEX_STRINGS[1] == ("hexstring", "hexadecimal"));
    let repairs = response_repairs("getblockdeltas"@);
    assert(repairs =~= pair_views(HEX_STRINGS@));
    lemma_apart_at("hex string"@, "hexadecimal"@, (3, 3), (0, 0), 0, 0);
    lemma_apart_at("hexstring"@, "hexadecimal"@, (3, 3), (0, 0), 0, 0);
}

/// The repairs of `getblockhashes` are settled.
pub proof fn lemma_getblockhashes_settled()
    ensures
        settled(response_repairs("getblockhashes"@)),
{
    reveal_strlit("getblockhashes");
    reveal_strlit("listunspent");
    reveal_strlit("getaddressmempool");
    reveal_strlit("z_validateaddress");
    reveal_strlit("getblockdeltas");
    reveal_strlit("hex string");
    reveal_strlit("hexadecimal");
    reveal_strlit("hexstring");
    assert("getblockhashes"@.len() != "listunspent"@.len());
    assert("getblockhashes"@.len() != "getaddressmempool"@.len());
    assert("getblockhashes"@.len() != "z_validateaddress"@.len());
    assert("getblockhashes"@[8] != "getblockdeltas"@[8]);
    assert(HEX_STRINGS[0] == ("hex string", "hexadecimal"));
    assert(HEX_STRINGS[1] == ("hexstring", "hexadecimal"));
    let repairs = response_repairs("getblockhashes"@);
    assert(repairs =~= pair_views(HEX_STRINGS@));
    lemma_apart_at("hex string"@, "hexadecimal"@, (3, 3), (0, 0), 0, 0);
    lemma_apart_at("hexstring"@, "hexadecimal"@, (3, 3), (0, 0), 0, 0);
}

/// The repairs of `z_listunspent` are settled.
pub proof fn lemma_z_listunspent_settled()
    ensures
        settled(response_repairs("z_listunspent"@)),
{
    reveal_strlit("z_listunspent");
    reveal_strlit("listunspent");
    reveal_strlit("getaddressmempool");
    reveal_strlit("z_validateaddress");
    reveal_strlit("getblockdeltas");
    reveal_strlit("getblockhashes");
    reveal_strlit(" (sprout) : n,");
    reveal_strlit(": <sprout> n,");
    reveal_strlit(" (sapling) : n,");
    reveal_strlit(": <sapling> n,");
    assert("z_listunspent"@.len() != "listunspent"@.len());
    assert("z_listunspent"@.len() != "getaddressmempool"@.len());
    assert("z_listunspent"@.len() != "z_validateaddress"@.len());
    assert("z_listunspent"@.len() != "getblockdeltas"@.len());
    assert("z_listunspent"@.len() != "getblockhashes"@.len());
    assert(Z_LISTUNSPENT[0] == (" (sprout) : n,", ": <sprout> n,"));
    assert(Z_LISTUNSPENT[1] == (" (sapling) : n,", ": <sapling> n,"));
    let repairs = response_repairs("z_listunspent"@);
    assert(repairs =~= pair_views(Z_LISTUNSPENT@));
    lemma_apart_at(" (sprout) : n,"@, ": <sprout> n,"@, (0, 0), (0, 0), 2, 0);
    lemma_apart_at(" (sprout) : n,"@, ": <sapling> n,"@, (0, 0), (0, 0), 2, 0);
    lemma_apart_at(" (sapling) : n,"@, ": <sapling> n,"@, (0, 0), (0, 0), 2, 0);
}

// ---------------------------------------------------------------------------
// Dropping continuation lines
// ---------------------------------------------------------------------------

/// The lines that are no continuation.
pub open spec fn kept(lines: Seq<Seq<char>>) -> Seq<Seq<char>>
    decreases lines.len(),
{
    if lines.len() == 0 {
        Seq::empty()
    } else if is_continuation(lines.last()) {
        kept(lines.drop_last())
    } else {
        kept(lines.drop_last()).push(lines.last())
    }
}

/// The lines, each followed by a line feed.
pub open spec fn joined(lines: Seq<Seq<char>>) -> Seq<char>
    decreases lines.len(),
{
    if lines.len() == 0 {
        Seq::empty()
    } else {
        joined(lines.drop_last()) + lines.last() + seq!['\n']
    }
}

/// The line is cut at a carriage return when it is read again: it ends
/// with one.
pub open spec fn ends_with_cr(line: Seq<char>) -> bool {
    line.len() > 0 && line.last() == '\r'
}

/// The line holds no line feed.
pub open spec fn one_line(line: Seq<char>) -> bool {
    forall|i: int| 0 <= i < line.len() ==> #[trigger] line[i] != '\n'
}

/// What is kept of the lines is the kept lines, joined.
pub proof fn lemma_kept_lines_joined(lines: Seq<Seq<char>>)
    ensures
        kept_lines(lines) == joined(kept(lines)),
    decreases lines.len(),
{
    if lines.len() > 0 {
        lemma_kept_lines_joined(lines.drop_last());
        if !is_continuation(lines.last()) {
            assert(kept(lines).drop_last() =~= kept(lines.drop_last()));
        }
    }
}

/// The kept lines are lines, and none of them is a continuation.
pub proof fn lemma_kept(lines: Seq<Seq<char>>)
    ensures
        forall|i: int|
            0 <= i < kept(lines).len() ==> !is_continuation(#[trigger] kept(lines)[i])
                && lines.contains(kept(lines)[i]),
    decreases lines.len(),
{
    if lines.len() > 0 {
        let before = lines.drop_last();
        lemma_kept(before);
        assert forall|i: int| 0 <= i < kept(lines).len() implies !is_continuation(
            #[trigger] kept(lines)[i],
        ) && lines.contains(kept(lines)[i]) by {
            if i < kept(before).len() {
                let line = kept(before)[i];
                assert(kept(lines)[i] == line);
                let m = choose|m: int| 0 <= m < before.len() && before[m] == line;
                assert(lines[m] == line);
            } else {
                assert(kept(lines)[i] == lines[lines.len() - 1]);
            }
        }
    }
}

/// Lines of which none is a continuation are all kept.
pub proof fn lemma_kept_all(lines: Seq<Seq<char>>)
    requires
        forall|i: int| 0 <= i < lines.len() ==> !is_continuation(#[trigger] lines[i]),
    ensures
        kept(lines) == lines,
    decreases lines.len(),
{
    if lines.len() > 0 {
        let before = lines.drop_last();
        assert forall|i: int| 0 <= i < before.len() implies !is_continuation(
            #[trigger] before[i],
        ) by {
            assert(before[i] == lines[i]);
        }
        lemma_kept_all(before);
        assert(!is_continuation(lines[lines.len() - 1]));
        assert(before.push(lines.last()) =~= lines);
    }
}

/// Joined lines start with the first line and its line feed.
pub proof fn lemma_joined_first(lines: Seq<Seq<char>>)
    requires
        lines.len() > 0,
    ensures
        joined(lines) == lines[0] + seq!['\n'] + joined(lines.skip(1)),
    decreases lines.len(),
{
    if lines.len() == 1 {
        assert(lines.skip(1) =~= Seq::<Seq<char>>::empty());
        assert(lines.drop_last() =~= Seq::<Seq<char>>::empty());
        assert(joined(lines) =~= lines[0] + seq!['\n'] + joined(lines.skip(1)));
    } else {
        lemma_joined_first(lines.drop_last());
        assert(lines.skip(1).drop_last() =~= lines.drop_last().skip(1));
        assert(lines.skip(1).last() == lines.last());
        assert(joined(lines) =~= lines[0] + seq!['\n'] + joined(lines.skip(1)));
    }
}

/// Reading joined lines gives the lines back, where each is one line and
/// none ends with a carriage return.
pub proof fn lemma_line_seq_joined(lines: Seq<Seq<char>>)
    requires
        forall|i: int| 0 <= i < lines.len() ==> one_line(#[trigger] lines[i]) && !ends_with_cr(lines[i]),
    ensures
        line_seq(joined(lines)) == lines,
    decreases lines.len(),
{
    if lines.len() > 0 {
        let first = lines[0];
        let rest = lines.skip(1);
        let text = joined(lines);
        lemma_joined_first(lines);
        assert(one_line(first) && !ends_with_cr(first));
        let n = first.len() as int;
        assert forall|k: int| 0 <= k < n implies #[trigger] text[k] != '\n' && text[k] != '\n' by {
            assert(text[k] == first[k]);
        }
        lemma_next_of_skips(text, '\n', '\n', 0, n);
        assert(text[n] == '\n');
        assert(next_of(text, '\n', '\n', 0) == n);
        assert(text.take(n) =~= first);
        assert(text.skip(n + 1) =~= joined(rest));
        assert forall|i: int| 0 <= i < rest.len() implies one_line(#[trigger] rest[i])
            && !ends_with_cr(rest[i]) by {
            assert(rest[i] == lines[i + 1]);
        }
        lemma_line_seq_joined(rest);
        assert(seq![first] + rest =~= lines);
    }
}

/// Every line that is read is one line.
pub proof fn lemma_line_seq_one_line(s: Seq<char>)
    ensures
        forall|i: int| 0 <= i < line_seq(s).len() ==> one_line(#[trigger] line_seq(s)[i]),
    decreases s.len(),
{
    if s.len() > 0 {
        let n = next_of(s, '\n', '\n', 0);
        lemma_next_of_passed(s, '\n', '\n', 0);
        if n < s.len() {
            let first = without_cr(s.take(n));
            let rest = line_seq(s.skip(n + 1));
            lemma_line_seq_one_line(s.skip(n + 1));
            assert(one_line(first)) by {
                assert forall|k: int| 0 <= k < first.len() implies #[trigger] first[k] != '\n' by {
                    assert(first[k] == s[k]);
                }
            }
            assert forall|i: int| 0 <= i < line_seq(s).len() implies one_line(
                #[trigger] line_seq(s)[i],
            ) by {
                if i > 0 {
                    assert(line_seq(s)[i] == rest[i - 1]);
                }
            }
        } else {
            assert(one_line(s));
        }
    }
}

/// Dropping the continuation lines of a text twice gives what dropping
/// them once gives, where no line that is kept ends with a carriage return.
pub proof fn lemma_kept_lines_twice(text: Seq<char>)
    requires
        forall|i: int|
            0 <= i < line_seq(text).len() && !is_continuation(#[trigger] line_seq(text)[i])
                ==> !ends_with_cr(line_seq(text)[i]),
    ensures
        kept_lines(line_seq(kept_lines(line_seq(text)))) == kept_lines(line_seq(text)),
{
    let lines = line_seq(text);
    let stay = kept(lines);
    lemma_kept_lines_joined(lines);
    lemma_kept(lines);
    lemma_line_seq_one_line(text);
    assert forall|i: int| 0 <= i < stay.len() implies one_line(#[trigger] stay[i]) && !ends_with_cr(
        stay[i],
    ) by {
        let m = choose|m: int| 0 <= m < lines.len() && lines[m] == stay[i];
        assert(one_line(lines[m]));
    }
    lemma_line_seq_joined(stay);
    lemma_kept_lines_joined(stay);
    lemma_kept_all(stay);
}

} // verus!
