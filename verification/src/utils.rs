//! General-purpose helpers of the sample codebase: string formatting,
//! slice utilities, a small cache and a query builder.

use vstd::prelude::*;
use std::hash::Hasher;
use vstd::std_specs::cmp::PartialEqSpec;
use vstd::std_specs::hash::DefaultHasherAdditionalSpecFns;
use vstd::string::StringExecFns;
use vstd::string::StringSliceAdditionalSpecFns;

verus! {

/// `parts` joined with `sep` between consecutive parts.
pub open spec fn join_with(parts: Seq<Seq<char>>, sep: Seq<char>) -> Seq<char>
    decreases parts.len(),
{
    if parts.len() == 0 {
        Seq::empty()
    } else if parts.len() == 1 {
        parts[0]
    } else {
        join_with(parts.drop_last(), sep) + sep + parts.last()
    }
}

/// What `str::to_uppercase` returns; a function of the characters alone.
pub uninterp spec fn upper_of(s: Seq<char>) -> Seq<char>;

/// Relies on str::to_uppercase: the result depends on the characters
/// alone.
#[verifier::external_body]
fn to_upper(s: &str) -> (r: String)
    ensures
        r@ == upper_of(s@),
{
    s.to_uppercase()
}

/// Upper-cases every item and joins them with a comma and a space.
pub fn process_data(items: &[&str]) -> (r: String)
    ensures
        r@ == join_with(
            items@.map_values(|s: &str| upper_of(s@)),
            ", "@,
        ),
{
    let ghost parts = items@.map_values(|s: &str| upper_of(s@));
    let n = items.len();
    let mut acc = String::new();
    let mut i: usize = 0;
    while i < n
        invariant
            n == items@.len(),
            0 <= i <= n,
            parts == items@.map_values(|s: &str| upper_of(s@)),
            acc@ == join_with(parts.take(i as int), ", "@),
        decreases n - i,
    {
        proof {
            assert(parts.take(i as int + 1).drop_last() =~= parts.take(i as int));
            assert(parts.take(i as int + 1).last() == parts[i as int]);
        }
        if i > 0 {
            acc.append(", ");
        }
        let up = to_upper(items[i]);
        acc.append(up.as_str());
        i += 1;
    }
    proof {
        assert(parts.take(n as int) =~= parts);
    }
    acc
}

/// Prefixes the data with a result marker.
pub fn format_output(data: &str) -> (r: String)
    ensures
        r@ == "Result: "@ + data@,
{
    let mut s = String::new();
    s.append("Result: ");
    s.append(data);
    s
}

/// The lowercase hex digit character for `d`.
pub open spec fn hex_digit_char(d: nat) -> char {
    if d < 10 {
        digit_char(d)
    } else if d == 10 { 'a' } else if d == 11 { 'b' } else if d == 12 { 'c' }
    else if d == 13 { 'd' } else if d == 14 { 'e' } else { 'f' }
}

/// The lowercase hex rendering of `n`, most significant digit first.
pub open spec fn hex_str(n: nat) -> Seq<char>
    decreases n,
{
    if n < 16 {
        seq![hex_digit_char(n)]
    } else {
        hex_str(n / 16).push(hex_digit_char(n % 16))
    }
}

/// The lowercase hex digit character for `d`.
fn hex_digit_of(d: u64) -> (r: char)
    requires
        d < 16,
    ensures
        r == hex_digit_char(d as nat),
{
    if d == 0 { '0' } else if d == 1 { '1' } else if d == 2 { '2' } else if d == 3 { '3' }
    else if d == 4 { '4' } else if d == 5 { '5' } else if d == 6 { '6' } else if d == 7 { '7' }
    else if d == 8 { '8' } else if d == 9 { '9' } else if d == 10 { 'a' } else if d == 11 { 'b' }
    else if d == 12 { 'c' } else if d == 13 { 'd' } else if d == 14 { 'e' } else { 'f' }
}

/// Appends the lowercase hex rendering of `n`.
fn push_hex(n: u64, out: &mut String)
    ensures
        final(out)@ == old(out)@ + hex_str(n as nat),
    decreases n,
{
    if n < 16 {
        let c = hex_digit_of(n);
        push_char(out, c);
        proof {
            assert(final(out)@ =~= old(out)@ + hex_str(n as nat));
        }
    } else {
        proof {
            assert(n / 16 < n) by (nonlinear_arith)
                requires n >= 16,
            ;
            assert(n % 16 < 16) by (nonlinear_arith);
        }
        push_hex(n / 16, out);
        let c = hex_digit_of(n % 16);
        push_char(out, c);
        proof {
            assert((n / 16) as nat == n as nat / 16);
            assert((n % 16) as nat == n as nat % 16);
            assert(final(out)@ =~= old(out)@ + hex_str(n as nat));
        }
    }
}

/// The hash of the text's bytes under std's default hasher, rendered in
/// lowercase hex. The hash value itself is std's, modeled as an
/// uninterpreted function of the written bytes.
pub fn hash_string(s: &str) -> (r: String)
    ensures
        r@ == hex_str(
            std::collections::hash_map::DefaultHasher::spec_finish(
                seq![s.spec_bytes()],
            ) as nat,
        ),
{
    let mut hasher = std::collections::hash_map::DefaultHasher::new();
    hasher.write(s.as_bytes());
    let h = hasher.finish();
    proof {
        assert(hasher@ =~= seq![s.spec_bytes()]);
    }
    let mut out = String::new();
    push_hex(h, &mut out);
    proof {
        assert(out@ =~= Seq::<char>::empty() + hex_str(h as nat));
    }
    out
}

/// True when `out` selects, in order, exactly the items of `items` for
/// which the predicate answered true, each by reference.
pub open spec fn filtered_by<T, F: Fn(&T) -> bool>(items: Seq<T>, pred: F, out: Seq<&T>) -> bool {
    exists|idx: Seq<int>|
        #![auto]
        idx.len() == out.len()
        && (forall|j: int| 0 <= j < idx.len() ==> 0 <= #[trigger] idx[j] < items.len())
        && (forall|j1: int, j2: int| 0 <= j1 < j2 < idx.len() ==> idx[j1] < idx[j2])
        && (forall|j: int| 0 <= j < out.len()
            ==> *#[trigger] out[j] == items[idx[j]] && pred.ensures((out[j],), true))
        && (forall|i: int| 0 <= i < items.len() && !idx.contains(i)
            ==> pred.ensures((&items[i],), false))
}

/// The items satisfying the predicate, in order, by reference.
pub fn filter_items<T, F: Fn(&T) -> bool>(items: &[T], predicate: F) -> (r: Vec<&T>)
    requires
        forall|i: int| 0 <= i < items@.len() ==> predicate.requires((&items@[i],)),
    ensures
        r@.len() <= items@.len(),
        filtered_by(items@, predicate, r@),
{
    let n = items.len();
    let mut out: Vec<&T> = Vec::new();
    let ghost mut idx: Seq<int> = Seq::empty();
    let mut i: usize = 0;
    while i < n
        invariant
            n == items@.len(),
            0 <= i <= n,
            out@.len() <= i,
            idx.len() == out@.len(),
            forall|k: int| 0 <= k < items@.len() ==> predicate.requires((&items@[k],)),
            forall|j: int| 0 <= j < idx.len() ==> 0 <= #[trigger] idx[j] < i,
            forall|j1: int, j2: int| 0 <= j1 < j2 < idx.len() ==> idx[j1] < idx[j2],
            forall|j: int| 0 <= j < out@.len()
                ==> *#[trigger] out@[j] == items@[idx[j]]
                    && predicate.ensures((out@[j],), true),
            forall|k: int| 0 <= k < i && !idx.contains(k)
                ==> predicate.ensures((&items@[k],), false),
        decreases n - i,
    {
        let item = &items[i];
        let ghost pre_idx = idx;
        if predicate(item) {
            out.push(item);
            proof {
                idx = idx.push(i as int);
                assert forall|k: int| 0 <= k < i + 1 && !idx.contains(k)
                    implies predicate.ensures((&items@[k],), false) by {
                    if k < i {
                        if pre_idx.contains(k) {
                            let j = choose|j: int| 0 <= j < pre_idx.len() && pre_idx[j] == k;
                            assert(idx[j] == k);
                        }
                    } else {
                        assert(idx[idx.len() - 1] == k);
                    }
                }
            }
        } else {
            proof {
                assert forall|k: int| 0 <= k < i + 1 && !idx.contains(k)
                    implies predicate.ensures((&items@[k],), false) by {}
            }
        }
        i += 1;
    }
    proof {
        assert(filtered_by(items@, predicate, out@));
    }
    out
}

/// The image of every item under the transform, in order.
pub fn map_items<T, U, F: Fn(&T) -> U>(items: &[T], transform: F) -> (r: Vec<U>)
    requires
        forall|i: int| 0 <= i < items@.len() ==> transform.requires((&items@[i],)),
    ensures
        r@.len() == items@.len(),
        forall|i: int| 0 <= i < items@.len()
            ==> transform.ensures((&items@[i],), #[trigger] r@[i]),
{
    let n = items.len();
    let mut out: Vec<U> = Vec::new();
    let mut i: usize = 0;
    while i < n
        invariant
            n == items@.len(),
            0 <= i <= n,
            out@.len() == i,
            forall|k: int| 0 <= k < items@.len() ==> transform.requires((&items@[k],)),
            forall|k: int| 0 <= k < i ==> transform.ensures((&items@[k],), #[trigger] out@[k]),
        decreases n - i,
    {
        let v = transform(&items[i]);
        out.push(v);
        i += 1;
    }
    out
}

/// True when the reducer can fold `s` from `acc` to `out`: there is a
/// chain of intermediate values the reducer's contract admits.
pub open spec fn folds_to<T, U, F: Fn(U, &T) -> U>(f: F, s: Seq<T>, acc: U, out: U) -> bool
    decreases s.len(),
{
    if s.len() == 0 {
        out == acc
    } else {
        exists|mid: U| #[trigger] f.ensures((acc, &s[0]), mid) && folds_to(f, s.subrange(1, s.len() as int), mid, out)
    }
}

/// Folds the items into a single value, front to back.
pub fn reduce_items<T, U, F: Fn(U, &T) -> U>(items: &[T], initial: U, reducer: F) -> (r: U)
    requires
        forall|acc: U, i: int| 0 <= i < items@.len() ==> reducer.requires((acc, &items@[i])),
    ensures
        folds_to(reducer, items@, initial, r),
{
    let n = items.len();
    let mut acc = initial;
    let ghost orig = items@;
    let mut i: usize = 0;
    proof {
        assert(orig.subrange(i as int, orig.len() as int) =~= orig);
    }
    let ghost start = acc;
    while i < n
        invariant
            n == orig.len(),
            orig == items@,
            0 <= i <= n,
            forall|a: U, k: int| 0 <= k < orig.len() ==> reducer.requires((a, &orig[k])),
            forall|out: U| folds_to(reducer, orig.subrange(i as int, orig.len() as int), acc, out)
                ==> folds_to(reducer, orig, start, out),
        decreases n - i,
    {
        let next = reducer(acc, &items[i]);
        proof {
            let tail = orig.subrange(i as int, orig.len() as int);
            let tail2 = orig.subrange(i as int + 1, orig.len() as int);
            assert(tail[0] == orig[i as int]);
            assert(tail.subrange(1, tail.len() as int) =~= tail2);
            assert forall|out: U| folds_to(reducer, tail2, next, out)
                implies folds_to(reducer, orig, start, out) by {
                assert(reducer.ensures((acc, &tail[0]), next));
                assert(folds_to(reducer, tail, acc, out));
            }
        }
        acc = next;
        i += 1;
    }
    proof {
        assert(orig.subrange(n as int, orig.len() as int) =~= Seq::<T>::empty());
        assert(folds_to(reducer, orig.subrange(n as int, orig.len() as int), acc, acc));
    }
    acc
}

/// Integer division as the machine performs it: the quotient truncated
/// toward zero.
pub open spec fn div_trunc(a: int, b: int) -> int {
    if a >= 0 && b > 0 {
        a / b
    } else if a < 0 && b > 0 {
        -((-a) / b)
    } else if a >= 0 && b < 0 {
        -(a / (-b))
    } else {
        (-a) / (-b)
    }
}

/// Divides, refusing a zero divisor.
pub fn safe_divide(a: i32, b: i32) -> (r: Option<i32>)
    requires
        !(a == i32::MIN && b == -1),
    ensures
        r is Some <==> b != 0,
        b != 0 ==> (r matches Some(q) && q == div_trunc(a as int, b as int)),
{
    if b == 0 {
        None
    } else {
        let a64 = a as i64;
        let b64 = b as i64;
        let am: i64 = if a64 < 0 { -a64 } else { a64 };
        let bm: i64 = if b64 < 0 { -b64 } else { b64 };
        let qm: i64 = am / bm;
        proof {
            vstd::arithmetic::div_mod::lemma_div_pos_is_pos(am as int, bm as int);
            vstd::arithmetic::div_mod::lemma_div_nonincreasing(am as int, bm as int);
            assert(0 <= qm <= am);
        }
        let q64: i64 = if (a64 < 0) != (b64 < 0) { -qm } else { qm };
        let q: i32 = q64 as i32;
        proof {
            if qm == 0x8000_0000i64 {
                // Only the smallest value divided by one reaches this
                // magnitude, and its sign makes the quotient fit.
                vstd::arithmetic::div_mod::lemma_fundamental_div_mod(am as int, bm as int);
                if bm >= 2 {
                    vstd::arithmetic::mul::lemma_mul_inequality(2, bm as int, qm as int);
                    assert(false);
                }
                assert(bm == 1);
                assert(q64 == -qm);
            }
            assert(-0x8000_0000i64 <= q64 < 0x8000_0000i64);
            assert(q == q64);
            assert(q == div_trunc(a as int, b as int));
        }
        Some(q)
    }
}

/// True when every result is a success.
pub open spec fn all_ok<T, E>(rs: Seq<Result<T, E>>) -> bool {
    forall|i: int| 0 <= i < rs.len() ==> (#[trigger] rs[i]) is Ok
}

/// The success values, in order.
pub open spec fn ok_values<T, E>(rs: Seq<Result<T, E>>) -> Seq<T> {
    rs.map_values(|r: Result<T, E>| r->Ok_0)
}

/// True when `v` is what the combiner returns for the success values.
pub open spec fn combined_ok<T, E, F: Fn(Vec<T>) -> Vec<T>>(f: F, rs: Seq<Result<T, E>>, v: Vec<T>) -> bool {
    exists|c: Vec<T>| c@ =~= ok_values(rs) && #[trigger] f.ensures((c,), v)
}

/// True when `e` is the first failure in `rs`.
pub open spec fn first_err_is<T, E>(rs: Seq<Result<T, E>>, e: E) -> bool {
    exists|i: int| 0 <= i < rs.len()
        && ((#[trigger] rs[i]) matches Err(e0) && e == e0)
        && (forall|j: int| 0 <= j < i ==> (#[trigger] rs[j]) is Ok)
}

/// Collects the successes and hands them to the combiner; the first
/// failure aborts and is returned instead.
#[verifier::loop_isolation(false)]
pub fn chain_results<T, E, F: Fn(Vec<T>) -> Vec<T>>(results: Vec<Result<T, E>>, combiner: F) -> (r: Result<Vec<T>, E>)
    requires
        forall|v: Vec<T>| combiner.requires((v,)),
    ensures
        r is Ok <==> all_ok(results@),
        r matches Ok(v) ==> combined_ok(combiner, results@, v),
        r matches Err(e) ==> first_err_is(results@, e),
{
    let ghost orig = results@;
    let mut rest = results;
    let mut collected: Vec<T> = Vec::new();
    while rest.len() > 0
        invariant
            collected@.len() + rest@.len() == orig.len(),
            orig =~= orig.take(collected@.len() as int) + rest@,
            forall|j: int| 0 <= j < collected@.len() ==> (#[trigger] orig[j]) is Ok,
            collected@ =~= ok_values(orig.take(collected@.len() as int)),
        decreases rest@.len(),
    {
        let ghost done = collected@.len() as int;
        let first = rest.remove(0);
        proof {
            assert(orig[done] == first);
        }
        match first {
            Ok(v) => {
                collected.push(v);
                proof {
                    assert(orig.take(done + 1) =~= orig.take(done).push(first));
                    assert(collected@ =~= ok_values(orig.take(done + 1))) by {
                        assert(ok_values(orig.take(done + 1)).len() == done + 1);
                        assert forall|k: int| 0 <= k < done + 1
                            implies ok_values(orig.take(done + 1))[k] == collected@[k] by {
                            if k < done {
                                assert(ok_values(orig.take(done))[k] == collected@[k]);
                            }
                        }
                    }
                    assert(orig =~= orig.take(done + 1) + rest@);
                }
            },
            Err(e) => {
                proof {
                    assert(!(orig[done] is Ok));
                    assert(!all_ok(orig));
                    assert((orig[done] matches Err(e0) && e == e0)
                        && (forall|j: int| 0 <= j < done ==> (#[trigger] orig[j]) is Ok));
                    assert(first_err_is(orig, e));
                }
                return Err(e);
            },
        }
    }
    proof {
        assert(orig.take(collected@.len() as int) =~= orig);
        assert(collected@ =~= ok_values(orig));
        assert(all_ok(orig));
    }
    let ghost cwit = collected;
    let combined = combiner(collected);
    proof {
        assert(cwit@ =~= ok_values(orig));
        assert(combiner.ensures((cwit,), combined));
        assert(combined_ok(combiner, orig, combined));
    }
    Ok(combined)
}

/// The concatenation of a sequence of chunks.
pub open spec fn concat_all<T>(cs: Seq<Seq<T>>) -> Seq<T>
    decreases cs.len(),
{
    if cs.len() == 0 {
        Seq::empty()
    } else {
        concat_all(cs.drop_last()) + cs.last()
    }
}

/// Splits the items into consecutive chunks of `size`; the last chunk may
/// be shorter.
pub fn chunks<T>(items: Vec<T>, size: usize) -> (r: Vec<Vec<T>>)
    requires
        size > 0,
    ensures
        concat_all(r@.map_values(|c: Vec<T>| c@)) =~= items@,
        forall|i: int| 0 <= i < r@.len() ==> 0 < (#[trigger] r@[i])@.len() <= size,
        forall|i: int| 0 <= i < r@.len() - 1 ==> (#[trigger] r@[i])@.len() == size,
{
    let ghost orig = items@;
    let mut rest = items;
    let mut out: Vec<Vec<T>> = Vec::new();
    let mut cur: Vec<T> = Vec::new();
    while rest.len() > 0
        invariant
            size > 0,
            concat_all(out@.map_values(|c: Vec<T>| c@)) + cur@ + rest@ =~= orig,
            cur@.len() < size,
            forall|i: int| 0 <= i < out@.len() ==> (#[trigger] out@[i])@.len() == size,
        decreases rest@.len(),
    {
        let ghost pre_out = out@;
        let ghost pre_cur = cur@;
        let x = rest.remove(0);
        cur.push(x);
        if cur.len() == size {
            out.push(cur);
            cur = Vec::new();
            proof {
                assert(out@.drop_last() =~= pre_out);
                assert(out@.map_values(|c: Vec<T>| c@).drop_last()
                    =~= pre_out.map_values(|c: Vec<T>| c@));
                assert(concat_all(out@.map_values(|c: Vec<T>| c@))
                    =~= concat_all(pre_out.map_values(|c: Vec<T>| c@)) + pre_cur.push(x));
            }
        }
        proof {
            assert(concat_all(out@.map_values(|c: Vec<T>| c@)) + cur@ + rest@ =~= orig);
        }
    }
    if cur.len() > 0 {
        let ghost pre_out = out@;
        let ghost pre_cur = cur@;
        out.push(cur);
        proof {
            assert(out@.drop_last() =~= pre_out);
            assert(out@.map_values(|c: Vec<T>| c@).drop_last()
                =~= pre_out.map_values(|c: Vec<T>| c@));
            assert(concat_all(out@.map_values(|c: Vec<T>| c@))
                =~= concat_all(pre_out.map_values(|c: Vec<T>| c@)) + pre_cur);
            assert forall|i: int| 0 <= i < out@.len() - 1
                implies (#[trigger] out@[i])@.len() == size by {
                assert(out@[i] == pre_out[i]);
            }
            assert forall|i: int| 0 <= i < out@.len()
                implies 0 < (#[trigger] out@[i])@.len() <= size by {
                if i < out@.len() - 1 {
                    assert(out@[i] == pre_out[i]);
                }
            }
        }
    }
    out
}

/// Each item paired with its index.
pub fn enumerate_items<T>(items: &[T]) -> (r: Vec<(usize, &T)>)
    ensures
        r@.len() == items@.len(),
        forall|i: int| 0 <= i < r@.len()
            ==> (#[trigger] r@[i]).0 == i && *r@[i].1 == items@[i],
{
    let n = items.len();
    let mut out: Vec<(usize, &T)> = Vec::new();
    let mut i: usize = 0;
    while i < n
        invariant
            n == items@.len(),
            0 <= i <= n,
            out@.len() == i,
            forall|k: int| 0 <= k < i
                ==> (#[trigger] out@[k]).0 == k && *out@[k].1 == items@[k],
        decreases n - i,
    {
        out.push((i, &items[i]));
        i += 1;
    }
    out
}

/// Flattens nested vectors into one, cloning each element in order.
pub fn flatten<T: Clone>(nested: &[Vec<T>]) -> (r: Vec<T>)
    ensures
        r@.len() == concat_all(nested@.map_values(|v: Vec<T>| v@)).len(),
        forall|i: int| 0 <= i < r@.len()
            ==> vstd::pervasive::cloned::<T>(
                concat_all(nested@.map_values(|v: Vec<T>| v@))[i],
                #[trigger] r@[i],
            ),
{
    let n = nested.len();
    let mut out: Vec<T> = Vec::new();
    let mut i: usize = 0;
    while i < n
        invariant
            n == nested@.len(),
            0 <= i <= n,
            out@.len() == concat_all(nested@.take(i as int).map_values(|v: Vec<T>| v@)).len(),
            forall|k: int| 0 <= k < out@.len()
                ==> vstd::pervasive::cloned::<T>(
                    concat_all(nested@.take(i as int).map_values(|v: Vec<T>| v@))[k],
                    #[trigger] out@[k],
                ),
        decreases n - i,
    {
        let ghost pre = nested@.take(i as int).map_values(|v: Vec<T>| v@);
        let inner = &nested[i];
        let m = inner.len();
        let mut j: usize = 0;
        while j < m
            invariant
                n == nested@.len(),
                0 <= i < n,
                m == inner@.len(),
                inner == &nested@[i as int],
                0 <= j <= m,
                pre == nested@.take(i as int).map_values(|v: Vec<T>| v@),
                out@.len() == concat_all(pre).len() + j,
                forall|k: int| 0 <= k < out@.len()
                    ==> vstd::pervasive::cloned::<T>(
                        (concat_all(pre) + inner@)[k],
                        #[trigger] out@[k],
                    ),
            decreases m - j,
        {
            let v = inner[j].clone();
            out.push(v);
            j += 1;
        }
        proof {
            let now = nested@.take(i as int + 1).map_values(|v: Vec<T>| v@);
            assert(nested@.take(i as int + 1).drop_last() =~= nested@.take(i as int));
            assert(now.drop_last() =~= pre);
            assert(now.last() == nested@[i as int]@);
            assert(concat_all(now) =~= concat_all(pre) + inner@);
        }
        i += 1;
    }
    proof {
        assert(nested@.take(n as int) =~= nested@);
    }
    out
}

/// What `str::trim` returns; a function of the characters alone.
pub uninterp spec fn trim_of(s: Seq<char>) -> Seq<char>;

/// Relies on str::trim: removes leading and trailing whitespace, a
/// function of the characters alone, never longer than its input.
#[verifier::external_body]
fn trim_str<'a>(s: &'a str) -> (r: &'a str)
    ensures
        r@ == trim_of(s@),
        r@.len() <= s@.len(),
{
    s.trim()
}

/// True when the text is empty or whitespace only.
pub fn is_blank(s: &str) -> (r: bool)
    ensures
        r == (trim_of(s@).len() == 0),
{
    trim_str(s).is_empty()
}

/// True when `r` is a prefix of the text whose encoding is the first
/// `max` bytes, followed by an ellipsis.
pub open spec fn truncated_to(sb: Seq<u8>, max: int, r: Seq<char>) -> bool {
    exists|h: Seq<char>| r == h + "..."@
        && #[trigger] vstd::utf8::encode_utf8(h) =~= sb.subrange(0, max)
}

/// Shortens the text to at most `max_len` bytes, marking the cut with an
/// ellipsis. A cut may only fall on a character boundary.
pub fn truncate(s: &str, max_len: usize) -> (r: String)
    requires
        s.spec_bytes().len() <= usize::MAX,
        s.spec_bytes().len() > max_len
            ==> vstd::utf8::is_char_boundary(s.spec_bytes(), max_len as int),
    ensures
        s.spec_bytes().len() <= max_len ==> r@ == s@,
        s.spec_bytes().len() > max_len
            ==> truncated_to(s.spec_bytes(), max_len as int, r@),
{
    if s.len() <= max_len {
        s.to_owned()
    } else {
        let (head, _) = s.split_at(max_len);
        let out = head.to_owned().concat("...");
        proof {
            assert(out@ == head@ + "..."@);
            assert(vstd::utf8::encode_utf8(head@) =~= s.spec_bytes().subrange(0, max_len as int));
            assert(truncated_to(s.spec_bytes(), max_len as int, out@));
        }
        out
    }
}

/// The parts, each trimmed, with empty parts dropped.
pub open spec fn trimmed_nonempty(parts: Seq<Seq<char>>) -> Seq<Seq<char>>
    decreases parts.len(),
{
    if parts.len() == 0 {
        Seq::empty()
    } else {
        let rest = trimmed_nonempty(parts.drop_last());
        if trim_of(parts.last()).len() > 0 {
            rest.push(trim_of(parts.last()))
        } else {
            rest
        }
    }
}

/// Relies on str::split with a char pattern: the parts contain no
/// delimiter, and joining them with the delimiter restores the input.
#[verifier::external_body]
fn split_parts(s: &str, delimiter: char) -> (r: Vec<String>)
    ensures
        join_with(r@.map_values(|p: String| p@), seq![delimiter]) == s@,
        forall|i: int| 0 <= i < r@.len() ==> !(#[trigger] r@[i])@.contains(delimiter),
        r@.len() >= 1,
{
    s.split(delimiter).map(|p: &str| p.to_owned()).collect()
}

/// Splits on the delimiter, trims each part, and drops the empty ones.
pub fn split_and_trim(s: &str, delimiter: char) -> (r: Vec<String>)
    ensures
        exists|parts: Seq<Seq<char>>|
            join_with(parts, seq![delimiter]) == s@
                && (forall|i: int| 0 <= i < parts.len() ==> !(#[trigger] parts[i]).contains(delimiter))
                && #[trigger] trimmed_nonempty(parts) =~= r@.map_values(|p: String| p@),
{
    let raw = split_parts(s, delimiter);
    let ghost parts = raw@.map_values(|p: String| p@);
    let n = raw.len();
    let mut out: Vec<String> = Vec::new();
    let mut i: usize = 0;
    while i < n
        invariant
            n == raw@.len(),
            0 <= i <= n,
            parts == raw@.map_values(|p: String| p@),
            out@.map_values(|p: String| p@) =~= trimmed_nonempty(parts.take(i as int)),
        decreases n - i,
    {
        proof {
            assert(parts.take(i as int + 1).drop_last() =~= parts.take(i as int));
            assert(parts.take(i as int + 1).last() == parts[i as int]);
        }
        let t = trim_str(raw[i].as_str());
        if !t.is_empty() {
            let ghost pre = out@;
            out.push(t.to_owned());
            proof {
                assert(out@.map_values(|p: String| p@).drop_last()
                    =~= pre.map_values(|p: String| p@));
            }
        }
        i += 1;
    }
    proof {
        assert(parts.take(n as int) =~= parts);
    }
    out
}

} // verus!

verus! {

/// The decimal digit character for `d`.
pub open spec fn digit_char(d: nat) -> char {
    if d == 0 { '0' } else if d == 1 { '1' } else if d == 2 { '2' } else if d == 3 { '3' }
    else if d == 4 { '4' } else if d == 5 { '5' } else if d == 6 { '6' } else if d == 7 { '7' }
    else if d == 8 { '8' } else { '9' }
}

/// The decimal rendering of `n`, most significant digit first.
pub open spec fn dec_str(n: nat) -> Seq<char>
    decreases n,
{
    if n < 10 {
        seq![digit_char(n)]
    } else {
        dec_str(n / 10).push(digit_char(n % 10))
    }
}

/// Relies on String::push: appends one character.
#[verifier::external_body]
pub(crate) fn push_char(s: &mut String, c: char)
    ensures
        final(s)@ == old(s)@.push(c),
{
    s.push(c);
}

/// The decimal digit character for `d`.
fn digit_of(d: usize) -> (r: char)
    requires
        d < 10,
    ensures
        r == digit_char(d as nat),
{
    if d == 0 { '0' } else if d == 1 { '1' } else if d == 2 { '2' } else if d == 3 { '3' }
    else if d == 4 { '4' } else if d == 5 { '5' } else if d == 6 { '6' } else if d == 7 { '7' }
    else if d == 8 { '8' } else { '9' }
}

/// Appends the decimal rendering of `n`.
pub(crate) fn push_decimal(n: usize, out: &mut String)
    ensures
        final(out)@ == old(out)@ + dec_str(n as nat),
    decreases n,
{
    if n < 10 {
        let c = digit_of(n);
        push_char(out, c);
        proof {
            assert(final(out)@ =~= old(out)@ + dec_str(n as nat));
        }
    } else {
        proof {
            assert(n / 10 < n) by (nonlinear_arith)
                requires n >= 10,
            ;
            assert(n % 10 < 10) by (nonlinear_arith);
        }
        push_decimal(n / 10, out);
        let c = digit_of(n % 10);
        push_char(out, c);
        proof {
            assert((n / 10) as nat == n as nat / 10);
            assert((n % 10) as nat == n as nat % 10);
            assert(final(out)@ =~= old(out)@ + dec_str(n as nat));
        }
    }
}

/// What a built query says, from the builder's parts: the selected
/// columns (or a star), the table, the conditions joined with AND, and
/// the limit, rendered in decimal.
pub open spec fn query_text(
    table: Seq<char>,
    columns: Seq<Seq<char>>,
    conditions: Seq<Seq<char>>,
    limit: Option<usize>,
) -> Seq<char> {
    "SELECT "@
        + (if columns.len() == 0 { "*"@ } else { join_with(columns, ", "@) })
        + " FROM "@ + table
        + (if conditions.len() > 0 { " WHERE "@ + join_with(conditions, " AND "@) } else { Seq::empty() })
        + (match limit {
            Some(n) => " LIMIT "@ + dec_str(n as nat),
            None => Seq::empty(),
        })
}

/// Builds a query string piece by piece.
pub struct QueryBuilder {
    table: String,
    columns: Vec<String>,
    conditions: Vec<String>,
    limit: Option<usize>,
}

impl QueryBuilder {
    /// The table queried.
    pub closed spec fn spec_table(&self) -> Seq<char> {
        self.table@
    }

    /// The selected columns, in order.
    pub closed spec fn spec_columns(&self) -> Seq<Seq<char>> {
        self.columns@.map_values(|c: String| c@)
    }

    /// The conditions, in order.
    pub closed spec fn spec_conditions(&self) -> Seq<Seq<char>> {
        self.conditions@.map_values(|c: String| c@)
    }

    /// The row limit, if one was set.
    pub closed spec fn spec_limit(&self) -> Option<usize> {
        self.limit
    }

    pub fn new(table: &str) -> (r: QueryBuilder)
        ensures
            r.spec_table() == table@,
            r.spec_columns() =~= Seq::<Seq<char>>::empty(),
            r.spec_conditions() =~= Seq::<Seq<char>>::empty(),
            r.spec_limit() is None,
    {
        QueryBuilder {
            table: table.to_owned(),
            columns: Vec::new(),
            conditions: Vec::new(),
            limit: None,
        }
    }

    /// Appends columns to the selection.
    pub fn select(self, columns: &[&str]) -> (r: QueryBuilder)
        ensures
            r.spec_table() == self.spec_table(),
            r.spec_columns() =~= self.spec_columns() + columns@.map_values(|c: &str| c@),
            r.spec_conditions() =~= self.spec_conditions(),
            r.spec_limit() == self.spec_limit(),
    {
        let mut b = self;
        let n = columns.len();
        let mut i: usize = 0;
        while i < n
            invariant
                n == columns@.len(),
                0 <= i <= n,
                b.table@ == self.spec_table(),
                b.conditions@.map_values(|c: String| c@) =~= self.spec_conditions(),
                b.limit == self.spec_limit(),
                b.columns@.map_values(|c: String| c@)
                    =~= self.spec_columns() + columns@.take(i as int).map_values(|c: &str| c@),
            decreases n - i,
        {
            let ghost pre = b.columns@;
            b.columns.push(columns[i].to_owned());
            proof {
                assert(b.columns@.map_values(|c: String| c@).drop_last()
                    =~= pre.map_values(|c: String| c@));
                assert(b.columns@.map_values(|c: String| c@).last() == columns@[i as int]@);
                assert(b.columns@.map_values(|c: String| c@)
                    =~= pre.map_values(|c: String| c@).push(columns@[i as int]@));
                assert(columns@.take(i as int + 1).map_values(|c: &str| c@)
                    =~= columns@.take(i as int).map_values(|c: &str| c@).push(columns@[i as int]@));
            }
            i += 1;
        }
        proof {
            assert(columns@.take(n as int) =~= columns@);
        }
        b
    }

    /// Appends one condition.
    pub fn where_clause(self, condition: &str) -> (r: QueryBuilder)
        ensures
            r.spec_table() == self.spec_table(),
            r.spec_columns() =~= self.spec_columns(),
            r.spec_conditions() =~= self.spec_conditions().push(condition@),
            r.spec_limit() == self.spec_limit(),
    {
        let mut b = self;
        let ghost pre = b.conditions@;
        b.conditions.push(condition.to_owned());
        proof {
            assert(b.conditions@.map_values(|c: String| c@).drop_last()
                =~= pre.map_values(|c: String| c@));
        }
        b
    }

    /// Caps the number of rows.
    pub fn limit(self, n: usize) -> (r: QueryBuilder)
        ensures
            r.spec_table() == self.spec_table(),
            r.spec_columns() =~= self.spec_columns(),
            r.spec_conditions() =~= self.spec_conditions(),
            r.spec_limit() == Some(n),
    {
        let mut b = self;
        b.limit = Some(n);
        b
    }

    /// Renders the query.
    pub fn build(&self) -> (r: String)
        ensures
            r@ == query_text(
                self.spec_table(),
                self.spec_columns(),
                self.spec_conditions(),
                self.spec_limit(),
            ),
    {
        let ghost cols = self.spec_columns();
        let ghost conds = self.spec_conditions();
        let mut sql = String::new();
        sql.append("SELECT ");

        if self.columns.is_empty() {
            push_char(&mut sql, '*');
            proof {
                reveal_strlit("*");
                assert("*"@ =~= Seq::<char>::empty().push('*'));
                assert(sql@ =~= "SELECT "@ + "*"@);
            }
        } else {
            let ghost base = sql@;
            let n = self.columns.len();
            let mut i: usize = 0;
            while i < n
                invariant
                    n == self.columns@.len(),
                    0 <= i <= n,
                    cols == self.spec_columns(),
                    base == "SELECT "@,
                    sql@ == base + join_with(cols.take(i as int), ", "@),
                decreases n - i,
            {
                proof {
                    assert(cols.take(i as int + 1).drop_last() =~= cols.take(i as int));
                    assert(cols.take(i as int + 1).last() == cols[i as int]);
                }
                if i > 0 {
                    sql.append(", ");
                }
                sql.append(self.columns[i].as_str());
                i += 1;
            }
            proof {
                assert(cols.take(n as int) =~= cols);
            }
        }

        sql.append(" FROM ");
        sql.append(self.table.as_str());

        if !self.conditions.is_empty() {
            sql.append(" WHERE ");
            let ghost base = sql@;
            let n = self.conditions.len();
            let mut i: usize = 0;
            while i < n
                invariant
                    n == self.conditions@.len(),
                    0 <= i <= n,
                    conds == self.spec_conditions(),
                    sql@ == base + join_with(conds.take(i as int), " AND "@),
                decreases n - i,
            {
                proof {
                    assert(conds.take(i as int + 1).drop_last() =~= conds.take(i as int));
                    assert(conds.take(i as int + 1).last() == conds[i as int]);
                }
                if i > 0 {
                    sql.append(" AND ");
                }
                sql.append(self.conditions[i].as_str());
                i += 1;
            }
            proof {
                assert(conds.take(n as int) =~= conds);
            }
        }

        match self.limit {
            Some(n) => {
                sql.append(" LIMIT ");
                push_decimal(n, &mut sql);
            },
            None => {},
        }
        proof {
            assert(sql@ =~= query_text(self.spec_table(), cols, conds, self.spec_limit()));
        }
        sql
    }
}

} // verus!

verus! {

/// True when some entry's key equals `k` under the key type's equality.
pub open spec fn has_key_spec<K: PartialEqSpec, V>(entries: Seq<(K, V)>, k: K) -> bool {
    exists|i: int| 0 <= i < entries.len() && (#[trigger] entries[i]).0.eq_spec(&k)
}

/// True when some entry with a key equal to `k` holds `v`.
pub open spec fn key_maps_to<K: PartialEqSpec, V>(entries: Seq<(K, V)>, k: K, v: V) -> bool {
    exists|i: int| 0 <= i < entries.len() && (#[trigger] entries[i]).0.eq_spec(&k)
        && entries[i].1 == v
}

/// True when `post` is `pre` with the first entry whose key equals `k`
/// given the value `v`, everything else unchanged.
pub open spec fn set_replaces<K: PartialEqSpec, V>(pre: Seq<(K, V)>, k: K, v: V, post: Seq<(K, V)>) -> bool {
    exists|i: int|
        #![auto]
        0 <= i < pre.len() && pre[i].0.eq_spec(&k)
        && (forall|j: int| 0 <= j < i ==> !pre[j].0.eq_spec(&k))
        && post =~= pre.update(i, (pre[i].0, v))
}

/// True when `post` is `pre` with the first entry whose key equals `k`
/// taken out, and `v` is that entry's value.
pub open spec fn removed_first<K: PartialEqSpec, V>(pre: Seq<(K, V)>, k: K, post: Seq<(K, V)>, v: V) -> bool {
    exists|i: int|
        #![auto]
        0 <= i < pre.len() && pre[i].0.eq_spec(&k)
        && (forall|j: int| 0 <= j < i ==> !pre[j].0.eq_spec(&k))
        && v == pre[i].1
        && post =~= pre.remove(i)
}

/// A small association cache. Contracts hold for key types whose `==`
/// obeys its specification.
pub struct Cache<K, V> {
    data: Vec<(K, V)>,
}

impl<K: Eq + core::hash::Hash + PartialEqSpec, V> Cache<K, V> {
    /// The entries, in insertion order.
    pub closed spec fn spec_entries(&self) -> Seq<(K, V)> {
        self.data@
    }

    pub fn new() -> (r: Cache<K, V>)
        ensures
            r.spec_entries() =~= Seq::<(K, V)>::empty(),
    {
        Cache { data: Vec::new() }
    }

    /// The position of the first entry whose key equals `key`.
    fn find_key(&self, key: &K) -> (r: Option<usize>)
        ensures
            r matches Some(i) ==> i < self.spec_entries().len(),
            K::obeys_eq_spec() ==> match r {
                Some(i) => i < self.spec_entries().len()
                    && self.spec_entries()[i as int].0.eq_spec(key)
                    && forall|j: int| 0 <= j < i
                        ==> !(#[trigger] self.spec_entries()[j]).0.eq_spec(key),
                None => forall|j: int| 0 <= j < self.spec_entries().len()
                    ==> !(#[trigger] self.spec_entries()[j]).0.eq_spec(key),
            },
    {
        let n = self.data.len();
        let mut i: usize = 0;
        while i < n
            invariant
                n == self.spec_entries().len(),
                0 <= i <= n,
                K::obeys_eq_spec() ==> forall|j: int| 0 <= j < i
                    ==> !(#[trigger] self.spec_entries()[j]).0.eq_spec(key),
            decreases n - i,
        {
            if self.data[i].0 == *key {
                return Some(i);
            }
            i += 1;
        }
        None
    }

    /// The cached value for `key`, if any.
    pub fn get(&self, key: &K) -> (r: Option<&V>)
        ensures
            K::obeys_eq_spec() ==> match r {
                Some(v) => key_maps_to(self.spec_entries(), *key, *v),
                None => !has_key_spec(self.spec_entries(), *key),
            },
    {
        match self.find_key(key) {
            Some(i) => {
                proof {
                    if K::obeys_eq_spec() {
                        assert(key_maps_to(self.spec_entries(), *key, self.spec_entries()[i as int].1));
                    }
                }
                Some(&self.data[i].1)
            },
            None => {
                proof {
                    if K::obeys_eq_spec() && has_key_spec(self.spec_entries(), *key) {
                        let j = choose|j: int| 0 <= j < self.spec_entries().len()
                            && (#[trigger] self.spec_entries()[j]).0.eq_spec(&*key);
                        assert(false);
                    }
                }
                None
            },
        }
    }

    /// Stores `value` under `key`: the first entry with an equal key has
    /// its value overwritten, otherwise a new entry is appended.
    pub fn set(&mut self, key: K, value: V)
        ensures
            K::obeys_eq_spec() && has_key_spec(old(self).spec_entries(), key)
                ==> set_replaces(old(self).spec_entries(), key, value, final(self).spec_entries()),
            K::obeys_eq_spec() && !has_key_spec(old(self).spec_entries(), key)
                ==> final(self).spec_entries() =~= old(self).spec_entries().push((key, value)),
    {
        match self.find_key(&key) {
            Some(i) => {
                let ghost pre = self.data@;
                let old_entry = self.data.remove(i);
                self.data.insert(i, (old_entry.0, value));
                proof {
                    if K::obeys_eq_spec() {
                        assert(pre[i as int].0.eq_spec(&key));
                        assert(has_key_spec(pre, key));
                        assert(self.data@ =~= pre.update(i as int, (pre[i as int].0, value)));
                        assert(set_replaces(pre, key, value, self.data@));
                    }
                }
            },
            None => {
                proof {
                    if K::obeys_eq_spec() && has_key_spec(self.spec_entries(), key) {
                        let j = choose|j: int| 0 <= j < self.spec_entries().len()
                            && (#[trigger] self.spec_entries()[j]).0.eq_spec(&key);
                        assert(false);
                    }
                }
                self.data.push((key, value));
            },
        }
    }

    /// True when a value is cached under `key`.
    pub fn has(&self, key: &K) -> (r: bool)
        ensures
            K::obeys_eq_spec() ==> r == has_key_spec(self.spec_entries(), *key),
    {
        match self.find_key(key) {
            Some(i) => {
                proof {
                    if K::obeys_eq_spec() {
                        assert(has_key_spec(self.spec_entries(), *key));
                    }
                }
                true
            },
            None => {
                proof {
                    if K::obeys_eq_spec() && has_key_spec(self.spec_entries(), *key) {
                        let j = choose|j: int| 0 <= j < self.spec_entries().len()
                            && (#[trigger] self.spec_entries()[j]).0.eq_spec(&*key);
                        assert(false);
                    }
                }
                false
            },
        }
    }

    /// Removes the first entry with an equal key, returning its value.
    pub fn remove(&mut self, key: &K) -> (r: Option<V>)
        ensures
            K::obeys_eq_spec() ==> match r {
                Some(v) => removed_first(old(self).spec_entries(), *key, final(self).spec_entries(), v),
                None => !has_key_spec(old(self).spec_entries(), *key)
                    && final(self).spec_entries() =~= old(self).spec_entries(),
            },
    {
        match self.find_key(key) {
            Some(i) => {
                let ghost pre = self.data@;
                let entry = self.data.remove(i);
                proof {
                    if K::obeys_eq_spec() {
                        assert(pre[i as int].0.eq_spec(&*key));
                        assert(self.data@ =~= pre.remove(i as int));
                        assert(removed_first(pre, *key, self.data@, entry.1));
                    }
                }
                Some(entry.1)
            },
            None => {
                proof {
                    if K::obeys_eq_spec() && has_key_spec(self.spec_entries(), *key) {
                        let j = choose|j: int| 0 <= j < self.spec_entries().len()
                            && (#[trigger] self.spec_entries()[j]).0.eq_spec(&*key);
                        assert(false);
                    }
                }
                None
            },
        }
    }

    /// Drops every entry.
    pub fn clear(&mut self)
        ensures
            final(self).spec_entries() =~= Seq::<(K, V)>::empty(),
    {
        self.data.clear();
    }
}

impl<K: Eq + core::hash::Hash + PartialEqSpec, V> Default for Cache<K, V> {
    fn default() -> (r: Cache<K, V>)
        ensures
            r.spec_entries() =~= Seq::<(K, V)>::empty(),
    {
        Cache::new()
    }
}

} // verus!

verus! {

/// The first occurrence of each distinct item, under the item type's
/// equality, in order of first appearance.
pub open spec fn first_occurrences<T: PartialEqSpec>(items: Seq<T>) -> Seq<T>
    decreases items.len(),
{
    if items.len() == 0 {
        Seq::empty()
    } else {
        let rest = first_occurrences(items.drop_last());
        if exists|j: int| 0 <= j < items.len() - 1
            && (#[trigger] items[j]).eq_spec(&items.last()) {
            rest
        } else {
            rest.push(items.last())
        }
    }
}

/// Clones the first occurrence of each distinct item, in order.
pub fn unique<T: Eq + core::hash::Hash + Clone + PartialEqSpec>(items: &[T]) -> (r: Vec<T>)
    ensures
        T::obeys_eq_spec() ==> r@.len() == first_occurrences(items@).len()
            && forall|k: int| 0 <= k < r@.len()
                ==> vstd::pervasive::cloned::<T>(first_occurrences(items@)[k], #[trigger] r@[k]),
{
    let n = items.len();
    let mut out: Vec<T> = Vec::new();
    let mut i: usize = 0;
    while i < n
        invariant
            n == items@.len(),
            0 <= i <= n,
            T::obeys_eq_spec() ==> out@.len() == first_occurrences(items@.take(i as int)).len()
                && forall|k: int| 0 <= k < out@.len()
                    ==> vstd::pervasive::cloned::<T>(
                        first_occurrences(items@.take(i as int))[k],
                        #[trigger] out@[k],
                    ),
        decreases n - i,
    {
        let mut dup: bool = false;
        let mut j: usize = 0;
        while j < i
            invariant
                n == items@.len(),
                0 <= j <= i < n,
                T::obeys_eq_spec() ==> (dup == exists|m: int| 0 <= m < j
                    && (#[trigger] items@[m]).eq_spec(&items@[i as int])),
            decreases i - j,
        {
            if items[j] == items[i] {
                dup = true;
            }
            j += 1;
        }
        proof {
            assert(items@.take(i as int + 1).drop_last() =~= items@.take(i as int));
            assert(items@.take(i as int + 1).last() == items@[i as int]);
        }
        if !dup {
            let v = items[i].clone();
            out.push(v);
            proof {
                if T::obeys_eq_spec() {
                    let pre = items@.take(i as int + 1);
                    if exists|m: int| 0 <= m < pre.len() - 1
                        && (#[trigger] pre[m]).eq_spec(&pre.last()) {
                        let m = choose|m: int| 0 <= m < pre.len() - 1
                            && (#[trigger] pre[m]).eq_spec(&pre.last());
                        assert(items@[m].eq_spec(&items@[i as int]));
                        assert(false);
                    }
                }
            }
        } else {
            proof {
                if T::obeys_eq_spec() {
                    let pre = items@.take(i as int + 1);
                    let m = choose|m: int| 0 <= m < i
                        && (#[trigger] items@[m]).eq_spec(&items@[i as int]);
                    assert(pre[m].eq_spec(&pre.last()));
                }
            }
        }
        i += 1;
    }
    proof {
        assert(items@.take(n as int) =~= items@);
    }
    out
}

/// True when each of the first `upto` parsers rejects `s`.
pub open spec fn parsers_fail_upto<T, E, F: Fn(&str) -> Result<T, E>>(parsers: Seq<F>, s: &str, upto: int) -> bool {
    forall|k: int| 0 <= k < upto
        ==> exists|e: E| (#[trigger] parsers[k]).ensures((s,), Err::<T, E>(e))
}

/// True when the first parser to accept `s` does so with the value `v`:
/// some parser returns `Ok(v)` and every parser before it rejects.
pub open spec fn first_parser_accepts<T, E, F: Fn(&str) -> Result<T, E>>(parsers: Seq<F>, s: &str, v: T) -> bool {
    exists|i: int| 0 <= i < parsers.len()
        && (#[trigger] parsers[i]).ensures((s,), Ok::<T, E>(v))
        && parsers_fail_upto(parsers, s, i)
}

/// Tries the parsers in order; the first success wins, and a result
/// comes back empty only when every parser rejected the text.
pub fn try_parse<T, E, F: Copy + Fn(&str) -> Result<T, E>>(s: &str, parsers: &[F]) -> (r: Option<T>)
    requires
        forall|i: int| 0 <= i < parsers@.len() ==> (#[trigger] parsers@[i]).requires((s,)),
    ensures
        r matches Some(v) ==> first_parser_accepts(parsers@, s, v),
        r is None ==> parsers_fail_upto(parsers@, s, parsers@.len() as int),
{
    let n = parsers.len();
    let mut i: usize = 0;
    while i < n
        invariant
            n == parsers@.len(),
            0 <= i <= n,
            forall|k: int| 0 <= k < parsers@.len() ==> (#[trigger] parsers@[k]).requires((s,)),
            parsers_fail_upto(parsers@, s, i as int),
        decreases n - i,
    {
        let p = parsers[i];
        let ret = p(s);
        match ret {
            Ok(value) => {
                proof {
                    assert(parsers@[i as int].ensures((s,), Ok::<T, E>(value)));
                    assert(first_parser_accepts(parsers@, s, value));
                }
                return Some(value);
            },
            Err(e) => {
                proof {
                    assert(parsers@[i as int].ensures((s,), Err::<T, E>(e)));
                    assert(parsers_fail_upto(parsers@, s, i as int + 1));
                }
            },
        }
        i += 1;
    }
    None
}

/// Relies on str::parse and Default::default: parses by the target
/// type's FromStr, falling back to the type's default value. Neither
/// implementation carries a specification.
#[verifier::external_body]
pub fn parse_or_default<T: core::str::FromStr + Default>(s: &str) -> T {
    s.parse().unwrap_or_default()
}

} // verus!

verus! {

/// `g` after `f`.
pub fn compose<T, F: Fn(T) -> T, G: Fn(T) -> T>(f: F, g: G) -> (h: impl Fn(T) -> T)
    ensures
        forall|x: T|
            f.requires((x,)) && (forall|y: T| #[trigger] f.ensures((x,), y) ==> g.requires((y,)))
                ==> #[trigger] h.requires((x,)),
        forall|x: T, r: T| #[trigger] h.ensures((x,), r)
            ==> exists|y: T| #[trigger] f.ensures((x,), y) && g.ensures((y,), r),
{
    move |x: T| -> (r: T)
        requires
            f.requires((x,)),
            forall|y: T| #[trigger] f.ensures((x,), y) ==> g.requires((y,)),
        ensures
            exists|y: T| #[trigger] f.ensures((x,), y) && g.ensures((y,), r),
        {
            g(f(x))
        }
}

/// `f` then `g`: the same composition, read in pipeline order.
pub fn pipe<T, F: Fn(T) -> T, G: Fn(T) -> T>(f: F, g: G) -> (h: impl Fn(T) -> T)
    ensures
        forall|x: T|
            f.requires((x,)) && (forall|y: T| #[trigger] f.ensures((x,), y) ==> g.requires((y,)))
                ==> #[trigger] h.requires((x,)),
        forall|x: T, r: T| #[trigger] h.ensures((x,), r)
            ==> exists|y: T| #[trigger] f.ensures((x,), y) && g.ensures((y,), r),
{
    move |x: T| -> (r: T)
        requires
            f.requires((x,)),
            forall|y: T| #[trigger] f.ensures((x,), y) ==> g.requires((y,)),
        ensures
            exists|y: T| #[trigger] f.ensures((x,), y) && g.ensures((y,), r),
        {
            g(f(x))
        }
}

} // verus!

verus! {

/// The total number of items across the groups.
pub open spec fn group_total<K, T>(gs: Seq<(K, Vec<T>)>) -> int
    decreases gs.len(),
{
    if gs.len() == 0 {
        0
    } else {
        group_total(gs.drop_last()) + gs.last().1@.len()
    }
}

/// Replacing one group changes the total by the difference in sizes.
proof fn lemma_group_total_update<K, T>(gs: Seq<(K, Vec<T>)>, i: int, p: (K, Vec<T>))
    requires
        0 <= i < gs.len(),
    ensures
        group_total(gs.update(i, p)) == group_total(gs) - gs[i].1@.len() + p.1@.len(),
    decreases gs.len(),
{
    if gs.len() > 0 {
        if i == gs.len() - 1 {
            assert(gs.update(i, p).drop_last() =~= gs.drop_last());
        } else {
            assert(gs.update(i, p).drop_last() =~= gs.drop_last().update(i, p));
            lemma_group_total_update(gs.drop_last(), i, p);
        }
    }
}

/// True when `x` was keyed into the group headed by `gk`: a key the key
/// function admits for `x` is the group key itself or equals it.
pub open spec fn member_keyed<T, K: PartialEqSpec, F: Fn(&T) -> K>(key_fn: F, gk: K, x: T) -> bool {
    exists|kx: K| #[trigger] key_fn.ensures((&x,), kx) && (gk == kx || gk.eq_spec(&kx))
}

/// True when every member of every group carries a key the group head
/// answers for.
pub open spec fn groups_keyed<T, K: PartialEqSpec, F: Fn(&T) -> K>(key_fn: F, gs: Seq<(K, Vec<T>)>) -> bool {
    forall|g: int, m: int|
        #![trigger gs[g].1@[m]]
        0 <= g < gs.len() && 0 <= m < gs[g].1@.len()
            ==> member_keyed(key_fn, gs[g].0, gs[g].1@[m])
}

/// True when no two group heads are equal keys.
pub open spec fn group_keys_distinct<K: PartialEqSpec, T>(gs: Seq<(K, Vec<T>)>) -> bool {
    forall|g1: int, g2: int|
        #![trigger gs[g1], gs[g2]]
        0 <= g1 < g2 < gs.len() ==> !gs[g1].0.eq_spec(&gs[g2].0)
}

/// `acc` with `x` added to the first group whose head equals `k`, or a
/// new singleton group appended when none matches.
pub open spec fn add_to_group<K: PartialEqSpec, T>(acc: Seq<(K, Seq<T>)>, k: K, x: T) -> Seq<(K, Seq<T>)>
    decreases acc.len(),
{
    if acc.len() == 0 {
        seq![(k, seq![x])]
    } else if acc[0].0.eq_spec(&k) {
        seq![(acc[0].0, acc[0].1.push(x))] + acc.drop_first()
    } else {
        seq![acc[0]] + add_to_group(acc.drop_first(), k, x)
    }
}

/// The groups obtained by folding the items into `acc` front to back,
/// keying item `i` by `keys[i]`.
pub open spec fn grouped<K: PartialEqSpec, T>(items: Seq<T>, keys: Seq<K>, acc: Seq<(K, Seq<T>)>) -> Seq<(K, Seq<T>)>
    decreases items.len(),
{
    if items.len() == 0 {
        acc
    } else {
        grouped(items.drop_first(), keys.drop_first(), add_to_group(acc, keys[0], items[0]))
    }
}

/// True when `gs` is exactly the grouping of the items under some key
/// assignment the key function admits: every item lands in exactly one
/// group, groups appear in first-appearance order of their keys, and
/// each group keeps its items in input order.
pub open spec fn groups_of<T, K: PartialEqSpec, F: Fn(&T) -> K>(key_fn: F, items: Seq<T>, gs: Seq<(K, Seq<T>)>) -> bool {
    exists|keys: Seq<K>|
        #![auto]
        keys.len() == items.len()
        && (forall|i: int| 0 <= i < items.len() ==> key_fn.ensures((&items[i],), #[trigger] keys[i]))
        && gs =~~= grouped(items, keys, Seq::empty())
}

/// The groups with their item vectors viewed as sequences.
pub open spec fn group_views<K, T>(gs: Seq<(K, Vec<T>)>) -> Seq<(K, Seq<T>)> {
    gs.map_values(|g: (K, Vec<T>)| (g.0, g.1@))
}

/// Folding one more item appends it through `add_to_group`.
proof fn lemma_grouped_snoc<K: PartialEqSpec, T>(s: Seq<T>, ks: Seq<K>, acc: Seq<(K, Seq<T>)>, x: T, k: K)
    requires
        ks.len() == s.len(),
    ensures
        grouped(s.push(x), ks.push(k), acc) =~~= add_to_group(grouped(s, ks, acc), k, x),
    decreases s.len(),
{
    if s.len() == 0 {
        assert(s.push(x).drop_first() =~= Seq::<T>::empty());
        assert(ks.push(k).drop_first() =~= Seq::<K>::empty());
        assert(s.push(x)[0] == x);
        assert(ks.push(k)[0] == k);
        assert(grouped(s.push(x), ks.push(k), acc)
            == grouped(Seq::<T>::empty(), Seq::<K>::empty(), add_to_group(acc, k, x)));
        assert(grouped(Seq::<T>::empty(), Seq::<K>::empty(), add_to_group(acc, k, x))
            == add_to_group(acc, k, x));
        assert(grouped(s, ks, acc) == acc);
    } else {
        assert(s.push(x).drop_first() =~= s.drop_first().push(x));
        assert(ks.push(k).drop_first() =~= ks.drop_first().push(k));
        assert(s.push(x)[0] == s[0]);
        assert(ks.push(k)[0] == ks[0]);
        assert(grouped(s.push(x), ks.push(k), acc)
            == grouped(s.drop_first().push(x), ks.drop_first().push(k),
                add_to_group(acc, ks[0], s[0])));
        lemma_grouped_snoc(s.drop_first(), ks.drop_first(), add_to_group(acc, ks[0], s[0]), x, k);
        assert(grouped(s, ks, acc)
            == grouped(s.drop_first(), ks.drop_first(), add_to_group(acc, ks[0], s[0])));
    }
}

/// When the first matching group sits at position `g`, adding goes there.
proof fn lemma_add_to_group_at<K: PartialEqSpec, T>(acc: Seq<(K, Seq<T>)>, k: K, x: T, g: int)
    requires
        0 <= g < acc.len(),
        acc[g].0.eq_spec(&k),
        forall|h: int| 0 <= h < g ==> !(#[trigger] acc[h]).0.eq_spec(&k),
    ensures
        add_to_group(acc, k, x) =~~= acc.update(g, (acc[g].0, acc[g].1.push(x))),
    decreases acc.len(),
{
    if g == 0 {
        assert(add_to_group(acc, k, x)
            =~~= seq![(acc[0].0, acc[0].1.push(x))] + acc.drop_first());
    } else {
        assert(!acc[0].0.eq_spec(&k));
        assert forall|h: int| 0 <= h < g - 1
            implies !(#[trigger] acc.drop_first()[h]).0.eq_spec(&k) by {
            assert(acc.drop_first()[h] == acc[h + 1]);
        }
        assert(acc.drop_first()[g - 1] == acc[g]);
        lemma_add_to_group_at(acc.drop_first(), k, x, g - 1);
        assert(acc.update(g, (acc[g].0, acc[g].1.push(x))).drop_first()
            =~= acc.drop_first().update(g - 1, (acc[g].0, acc[g].1.push(x))));
    }
}

/// When no group matches, adding appends a new singleton group.
proof fn lemma_add_to_group_none<K: PartialEqSpec, T>(acc: Seq<(K, Seq<T>)>, k: K, x: T)
    requires
        forall|h: int| 0 <= h < acc.len() ==> !(#[trigger] acc[h]).0.eq_spec(&k),
    ensures
        add_to_group(acc, k, x) =~~= acc.push((k, seq![x])),
    decreases acc.len(),
{
    if acc.len() > 0 {
        assert(!acc[0].0.eq_spec(&k));
        assert forall|h: int| 0 <= h < acc.drop_first().len()
            implies !(#[trigger] acc.drop_first()[h]).0.eq_spec(&k) by {
            assert(acc.drop_first()[h] == acc[h + 1]);
        }
        lemma_add_to_group_none(acc.drop_first(), k, x);
        assert(acc.push((k, seq![x])).drop_first() =~= acc.drop_first().push((k, seq![x])));
    }
}

/// The position of the first group whose head equals `k`.
fn find_group<T, K: Eq + core::hash::Hash + PartialEqSpec>(out: &Vec<(K, Vec<T>)>, k: &K) -> (r: Option<usize>)
    ensures
        r matches Some(g) ==> g < out@.len(),
        K::obeys_eq_spec() ==> match r {
            Some(g) => g < out@.len() && out@[g as int].0.eq_spec(k)
                && forall|h: int| 0 <= h < g ==> !(#[trigger] out@[h]).0.eq_spec(k),
            None => forall|h: int| 0 <= h < out@.len() ==> !(#[trigger] out@[h]).0.eq_spec(k),
        },
{
    let n = out.len();
    let mut g: usize = 0;
    while g < n
        invariant
            n == out@.len(),
            0 <= g <= n,
            K::obeys_eq_spec() ==> forall|h: int| 0 <= h < g
                ==> !(#[trigger] out@[h]).0.eq_spec(k),
        decreases n - g,
    {
        if out[g].0 == *k {
            return Some(g);
        }
        g += 1;
    }
    None
}

/// Groups the items by their computed key, in first-appearance order of
/// the keys, keeping each group's items in input order. Contracts hold
/// for key types whose `==` obeys its specification.
pub fn group_by<T, K: Eq + core::hash::Hash + PartialEqSpec, F: Fn(&T) -> K>(items: Vec<T>, key_fn: F) -> (r: Vec<(K, Vec<T>)>)
    requires
        forall|i: int| 0 <= i < items@.len() ==> key_fn.requires((&items@[i],)),
    ensures
        group_total(r@) == items@.len(),
        forall|g: int| 0 <= g < r@.len() ==> (#[trigger] r@[g]).1@.len() >= 1,
        K::obeys_eq_spec() ==> group_keys_distinct(r@),
        K::obeys_eq_spec() ==> groups_keyed(key_fn, r@),
        K::obeys_eq_spec() ==> groups_of(key_fn, items@, group_views(r@)),
{
    let ghost orig = items@;
    let mut rest = items;
    let mut out: Vec<(K, Vec<T>)> = Vec::new();
    let ghost mut keys: Seq<K> = Seq::empty();
    while rest.len() > 0
        invariant
            forall|i: int| 0 <= i < orig.len() ==> key_fn.requires((&orig[i],)),
            group_total(out@) + rest@.len() == orig.len(),
            orig =~= orig.take(orig.len() - rest@.len()) + rest@,
            keys.len() == orig.len() - rest@.len(),
            forall|i: int| 0 <= i < keys.len()
                ==> key_fn.ensures((&orig[i],), #[trigger] keys[i]),
            K::obeys_eq_spec() ==> group_views(out@)
                =~~= grouped(orig.take(keys.len() as int), keys, Seq::empty()),
            forall|g: int| 0 <= g < out@.len() ==> (#[trigger] out@[g]).1@.len() >= 1,
            K::obeys_eq_spec() ==> group_keys_distinct(out@),
            K::obeys_eq_spec() ==> groups_keyed(key_fn, out@),
        decreases rest@.len(),
    {
        let ghost done = orig.len() - rest@.len();
        let x = rest.remove(0);
        proof {
            assert(orig[done as int] == x);
            assert(orig =~= orig.take(done as int + 1) + rest@);
        }
        let k = key_fn(&x);
        proof {
            if K::obeys_eq_spec() {
                assert(orig.take(done + 1) =~= orig.take(done).push(x));
                lemma_grouped_snoc(orig.take(done), keys, Seq::empty(), x, k);
            }
        }
        if let Some(g) = find_group(&out, &k) {
            let ghost pre = out@;
            let entry = out.remove(g);
            let (gk, mut gv) = entry;
            gv.push(x);
            out.insert(g, (gk, gv));
            proof {
                assert(out@ =~= pre.update(g as int, (pre[g as int].0, out@[g as int].1)));
                lemma_group_total_update(pre, g as int, out@[g as int]);
                if K::obeys_eq_spec() {
                    assert(pre[g as int].0.eq_spec(&k));
                    assert forall|h: int| 0 <= h < g
                        implies !(#[trigger] group_views(pre)[h]).0.eq_spec(&k) by {
                        assert(group_views(pre)[h].0 == pre[h].0);
                    }
                    assert(group_views(pre)[g as int].0.eq_spec(&k));
                    lemma_add_to_group_at(group_views(pre), k, x, g as int);
                    assert(group_views(out@) =~~= group_views(pre).update(
                        g as int,
                        (group_views(pre)[g as int].0, group_views(pre)[g as int].1.push(x)),
                    ));
                    assert(group_views(out@) =~~= add_to_group(group_views(pre), k, x));
                    keys = keys.push(k);
                    assert(group_views(out@)
                        =~~= grouped(orig.take(keys.len() as int), keys, Seq::empty()));
                    assert(key_fn.ensures((&x,), k));
                    assert(member_keyed(key_fn, pre[g as int].0, x));
                    assert forall|gi: int, m: int|
                        #![trigger out@[gi].1@[m]]
                        0 <= gi < out@.len() && 0 <= m < out@[gi].1@.len()
                        implies member_keyed(key_fn, out@[gi].0, out@[gi].1@[m]) by {
                        if gi != g as int {
                            assert(out@[gi] == pre[gi]);
                        } else {
                            if m < out@[gi].1@.len() - 1 {
                                assert(out@[gi].1@[m] == pre[gi].1@[m]);
                            } else {
                                assert(out@[gi].1@[m] == x);
                            }
                        }
                    }
                    assert forall|g1: int, g2: int|
                        #![trigger out@[g1], out@[g2]]
                        0 <= g1 < g2 < out@.len()
                        implies !out@[g1].0.eq_spec(&out@[g2].0) by {
                        assert(out@[g1].0 == pre[g1].0);
                        assert(out@[g2].0 == pre[g2].0);
                        assert(!pre[g1].0.eq_spec(&pre[g2].0));
                    }
                } else {
                    keys = keys.push(k);
                }
            }
        } else {
            let ghost pre = out@;
            let mut gv: Vec<T> = Vec::new();
            gv.push(x);
            out.push((k, gv));
            proof {
                assert(out@.drop_last() =~= pre);
                if K::obeys_eq_spec() {
                    assert forall|h: int| 0 <= h < group_views(pre).len()
                        implies !(#[trigger] group_views(pre)[h]).0.eq_spec(&k) by {
                        assert(group_views(pre)[h].0 == pre[h].0);
                    }
                    lemma_add_to_group_none(group_views(pre), k, x);
                    assert(group_views(out@) =~~= group_views(pre).push((k, seq![x])));
                    assert(group_views(out@) =~~= add_to_group(group_views(pre), k, x));
                    keys = keys.push(k);
                    assert(group_views(out@)
                        =~~= grouped(orig.take(keys.len() as int), keys, Seq::empty()));
                    assert(key_fn.ensures((&x,), k));
                    assert forall|gi: int, m: int|
                        #![trigger out@[gi].1@[m]]
                        0 <= gi < out@.len() && 0 <= m < out@[gi].1@.len()
                        implies member_keyed(key_fn, out@[gi].0, out@[gi].1@[m]) by {
                        if gi < out@.len() - 1 {
                            assert(out@[gi] == pre[gi]);
                        } else {
                            assert(out@[gi].1@[m] == x);
                            assert(out@[gi].0 == k);
                        }
                    }
                    assert forall|g1: int, g2: int|
                        #![trigger out@[g1], out@[g2]]
                        0 <= g1 < g2 < out@.len()
                        implies !out@[g1].0.eq_spec(&out@[g2].0) by {
                        if g2 < out@.len() - 1 {
                            assert(out@[g1] == pre[g1]);
                            assert(out@[g2] == pre[g2]);
                        } else {
                            assert(out@[g1] == pre[g1]);
                            assert(out@[g2].0 == k);
                        }
                    }
                } else {
                    keys = keys.push(k);
                }
            }
        }
    }
    proof {
        if K::obeys_eq_spec() {
            assert(orig.take(keys.len() as int) =~= orig);
            assert(group_views(out@) =~~= grouped(orig, keys, Seq::empty()));
            assert(groups_of(key_fn, orig, group_views(out@)));
        }
    }
    out
}

} // verus!
