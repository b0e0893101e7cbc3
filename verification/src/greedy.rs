//! The balancing rule of the distribution by connected components: repeatedly, the largest
//! remaining component goes to the least loaded worker.

use vstd::prelude::*;

verus! {

/// The position, among the remaining components `rem`, of the last of the largest ones, the
/// size of component `c` being `sizes[c]`.
pub open spec fn last_largest(rem: Seq<usize>, sizes: Seq<usize>) -> int
    decreases rem.len(),
{
    if rem.len() <= 1 {
        0
    } else {
        let p = last_largest(rem.drop_last(), sizes);
        if sizes[rem.last() as int] >= sizes[rem[p] as int] {
            rem.len() - 1
        } else {
            p
        }
    }
}

/// The position of the first of the least loaded workers.
pub open spec fn first_least(loads: Seq<int>) -> int
    decreases loads.len(),
{
    if loads.len() <= 1 {
        0
    } else {
        let p = first_least(loads.drop_last());
        if loads.last() < loads[p] {
            loads.len() - 1
        } else {
            p
        }
    }
}

/// The worker position that each of the components `rem` goes to when, repeatedly, the last
/// of the largest remaining components goes to the first of the least loaded workers, and
/// adds its size to the load of that worker.
pub open spec fn greedy(rem: Seq<usize>, sizes: Seq<usize>, loads: Seq<int>) -> Map<usize, int>
    decreases rem.len(),
{
    if rem.len() == 0 {
        Map::empty()
    } else {
        let p = last_largest(rem, sizes);
        let w = first_least(loads);
        if 0 <= p < rem.len() {
            greedy(rem.remove(p), sizes, loads.update(w, loads[w] + sizes[rem[p] as int])).insert(rem[p], w)
        } else {
            Map::empty()
        }
    }
}

/// The components `0..k`.
pub open spec fn all_components(k: nat) -> Seq<usize> {
    Seq::new(k, |i: int| i as usize)
}

/// `n` workers with nothing to do.
pub open spec fn idle(n: nat) -> Seq<int> {
    Seq::new(n, |i: int| 0int)
}

proof fn lemma_last_largest_range(rem: Seq<usize>, sizes: Seq<usize>)
    requires
        rem.len() > 0,
    ensures
        0 <= last_largest(rem, sizes) < rem.len(),
    decreases rem.len(),
{
    if rem.len() > 1 {
        lemma_last_largest_range(rem.drop_last(), sizes);
    }
}

proof fn lemma_first_least_range(loads: Seq<int>)
    requires
        loads.len() > 0,
    ensures
        0 <= first_least(loads) < loads.len(),
    decreases loads.len(),
{
    if loads.len() > 1 {
        lemma_first_least_range(loads.drop_last());
    }
}

proof fn lemma_greedy_dom(rem: Seq<usize>, sizes: Seq<usize>, loads: Seq<int>)
    ensures
        greedy(rem, sizes, loads).dom() == rem.to_set(),
    decreases rem.len(),
{
    if rem.len() == 0 {
        assert(rem.to_set() =~= Set::<usize>::empty());
    } else {
        lemma_last_largest_range(rem, sizes);
        let p = last_largest(rem, sizes);
        let w = first_least(loads);
        let rest = rem.remove(p);
        lemma_greedy_dom(rest, sizes, loads.update(w, loads[w] + sizes[rem[p] as int]));
        assert forall|x: usize| #[trigger] rem.to_set().contains(x) <==> rest.to_set().insert(rem[p]).contains(x) by {
            if rem.to_set().contains(x) {
                let q = choose|q: int| 0 <= q < rem.len() && rem[q] == x;
                if q < p {
                    assert(rest[q] == x);
                } else if q > p {
                    assert(rest[q - 1] == x);
                }
            }
            if rest.to_set().contains(x) {
                let q = choose|q: int| 0 <= q < rest.len() && rest[q] == x;
                if q < p {
                    assert(rem[q] == x);
                } else {
                    assert(rem[q + 1] == x);
                }
            }
            if x == rem[p] {
                assert(rem[p] == x);
            }
        }
        assert(greedy(rem, sizes, loads).dom() =~= rem.to_set());
    }
}

/// The worker position of each component `c` of sizes `sizes`, among `workers` workers: see
/// `greedy`.
pub fn greedy_choice(sizes: &Vec<usize>, workers: usize) -> (choice: Vec<usize>)
    requires
        workers > 0,
        sizes@.len() <= u32::MAX + 1,
    ensures
        choice@.len() == sizes@.len(),
        forall|c: int|
            0 <= c < sizes@.len() ==> {
                &&& greedy(all_components(sizes@.len()), sizes@, idle(workers as nat)).contains_key(c as usize)
                &&& (#[trigger] choice@[c]) as int == greedy(all_components(sizes@.len()), sizes@, idle(workers as nat))[c as usize]
                &&& choice@[c] < workers
            },
{
    let k = sizes.len();
    let ghost total = greedy(all_components(k as nat), sizes@, idle(workers as nat));
    let mut rem: Vec<usize> = Vec::new();
    let mut choice: Vec<usize> = Vec::new();
    let mut i: usize = 0;
    while i < k
        invariant
            i <= k,
            k == sizes@.len(),
            rem@ == all_components(k as nat).take(i as int),
            choice@.len() == i,
        decreases k - i,
    {
        rem.push(i);
        choice.push(0);
        i = i + 1;
        proof {
            assert(rem@ =~= all_components(k as nat).take(i as int));
        }
    }
    proof {
        assert(rem@ =~= all_components(k as nat));
    }
    let mut loads: Vec<u128> = Vec::new();
    let mut j: usize = 0;
    while j < workers
        invariant
            j <= workers,
            loads@.len() == j,
            forall|a: int| 0 <= a < j ==> #[trigger] loads@[a] == 0,
        decreases workers - j,
    {
        loads.push(0);
        j = j + 1;
    }
    let ghost mut sl: Seq<int> = idle(workers as nat);
    proof {
        assert forall|a: int| 0 <= a < workers implies #[trigger] loads@[a] == sl[a] by {}
        assert(total.restrict(rem@.to_set()) =~= total) by {
            lemma_greedy_dom(all_components(k as nat), sizes@, idle(workers as nat));
        }
        assert forall|c: int| 0 <= c < k implies #[trigger] rem@.contains(c as usize) by {
            assert(rem@[c] == c as usize);
        }
        assert(settled(total, choice@, rem@, workers));
    }
    while rem.len() > 0
        invariant
            k == sizes@.len(),
            k <= u32::MAX + 1,
            workers > 0,
            choice@.len() == k,
            loads@.len() == workers,
            sl.len() == workers,
            forall|a: int| 0 <= a < workers ==> #[trigger] loads@[a] == sl[a],
            forall|a: int| 0 <= a < workers ==> 0 <= #[trigger] sl[a] <= (k - rem@.len()) * 0x1_0000_0000_0000_0000,
            rem@.len() <= k,
            forall|q: int| 0 <= q < rem@.len() ==> #[trigger] rem@[q] < k,
            forall|q1: int, q2: int| 0 <= q1 < q2 < rem@.len() ==> #[trigger] rem@[q1] != #[trigger] rem@[q2],
            total == greedy(all_components(k as nat), sizes@, idle(workers as nat)),
            greedy(rem@, sizes@, sl) == total.restrict(rem@.to_set()),
            settled(total, choice@, rem@, workers),
        decreases rem@.len(),
    {
        // the largest remaining component: the last of the largest.
        let mut p: usize = 0;
        let mut c: usize = 1;
        while c < rem.len()
            invariant
                1 <= c <= rem@.len(),
                p < c,
                p as int == last_largest(rem@.take(c as int), sizes@),
                k == sizes@.len(),
                forall|q: int| 0 <= q < rem@.len() ==> #[trigger] rem@[q] < k,
            decreases rem@.len() - c,
        {
            proof {
                let t = rem@.take(c + 1);
                assert(t.drop_last() =~= rem@.take(c as int));
                assert(t.last() == rem@[c as int]);
                assert(t[p as int] == rem@[p as int]);
            }
            if sizes[rem[c]] >= sizes[rem[p]] {
                p = c;
            }
            c = c + 1;
        }
        proof {
            assert(rem@.take(rem@.len() as int) =~= rem@);
        }
        // the least loaded worker: the first of those.
        let mut w: usize = 0;
        let mut v: usize = 1;
        while v < loads.len()
            invariant
                1 <= v <= loads@.len(),
                w < v,
                loads@.len() == sl.len(),
                forall|a: int| 0 <= a < loads@.len() ==> #[trigger] loads@[a] == sl[a],
                w as int == first_least(sl.take(v as int)),
            decreases loads@.len() - v,
        {
            proof {
                let t = sl.take(v + 1);
                assert(t.drop_last() =~= sl.take(v as int));
                assert(t.last() == sl[v as int]);
                assert(t[w as int] == sl[w as int]);
            }
            if loads[v] < loads[w] {
                w = v;
            }
            v = v + 1;
        }
        proof {
            assert(sl.take(sl.len() as int) =~= sl);
        }
        let x = rem[p];
        let size = sizes[x];
        proof {
            lemma_last_largest_range(rem@, sizes@);
            let p_int = p as int;
            let new_sl = sl.update(w as int, sl[w as int] + sizes@[x as int]);
            let rest = rem@.remove(p_int);
            assert(greedy(rem@, sizes@, sl) == greedy(rest, sizes@, new_sl).insert(x, w as int));
            lemma_greedy_dom(rest, sizes@, new_sl);
            let rem_set = rem@.to_set();
            let rest_set = rest.to_set();
            assert(rem@[p_int] == x);
            assert(rem_set.contains(x));
            assert(greedy(rem@, sizes@, sl).contains_key(x));
            assert(greedy(rem@, sizes@, sl)[x] == w as int);
            assert(total.restrict(rem_set).contains_key(x));
            assert(total.contains_key(x));
            assert(total[x] == w as int);
            assert(!rest_set.contains(x)) by {
                if rest_set.contains(x) {
                    let q = choose|q: int| 0 <= q < rest.len() && rest[q] == x;
                    if q < p_int {
                        assert(rem@[q] == rem@[p_int]);
                    } else {
                        assert(rem@[q + 1] == rem@[p_int]);
                    }
                }
            }
            assert forall|y: usize| rest_set.contains(y) implies rem_set.contains(y) by {
                let q = choose|q: int| 0 <= q < rest.len() && rest[q] == y;
                if q < p_int {
                    assert(rem@[q] == y);
                } else {
                    assert(rem@[q + 1] == y);
                }
            }
            assert forall|y: usize| #[trigger] greedy(rest, sizes@, new_sl).contains_key(y) <==> total.restrict(rest_set).contains_key(y) by {
                if rest_set.contains(y) {
                    assert(y != x);
                    assert(greedy(rem@, sizes@, sl).contains_key(y));
                    assert(total.restrict(rem_set).contains_key(y));
                }
            }
            assert forall|y: usize| #[trigger] greedy(rest, sizes@, new_sl).contains_key(y) implies greedy(rest, sizes@, new_sl)[y] == total.restrict(rest_set)[y] by {
                assert(rest_set.contains(y));
                assert(y != x);
                assert(greedy(rem@, sizes@, sl)[y] == greedy(rest, sizes@, new_sl)[y]);
                assert(total.restrict(rem_set)[y] == total[y]);
            }
            assert(greedy(rest, sizes@, new_sl) =~= total.restrict(rest_set));
            assert(sl[w as int] <= (k - rem@.len()) * 0x1_0000_0000_0000_0000);
            assert((k - rem@.len()) * 0x1_0000_0000_0000_0000 + 0x1_0000_0000_0000_0000 <= 0x1_0000_0000 * 0x1_0000_0000_0000_0000
                + 0x1_0000_0000_0000_0000) by (nonlinear_arith)
                requires
                    k - rem@.len() <= 0x1_0000_0000,
            ;
        }
        loads.set(w, loads[w] + size as u128);
        let ghost choice_a = choice@;
        choice.set(x, w);
        let ghost rem_b = rem@;
        let ghost choice_b = choice@;
        rem.remove(p);
        proof {
            let p_int = p as int;
            sl = sl.update(w as int, sl[w as int] + sizes@[x as int]);
            assert forall|a: int| 0 <= a < workers implies 0 <= #[trigger] sl[a] <= (k - rem@.len())
                * 0x1_0000_0000_0000_0000 by {
                assert((k - rem@.len() - 1) * 0x1_0000_0000_0000_0000 + 0x1_0000_0000_0000_0000 == (k - rem@.len())
                    * 0x1_0000_0000_0000_0000) by (nonlinear_arith);
            }
            assert(rem@ == rem_b.remove(p_int));
            assert forall|q1: int, q2: int| 0 <= q1 < q2 < rem@.len() implies #[trigger] rem@[q1] != #[trigger] rem@[q2] by {
                let d1 = if q1 < p_int { q1 } else { q1 + 1 };
                let d2 = if q2 < p_int { q2 } else { q2 + 1 };
                assert(rem@[q1] == rem_b[d1]);
                assert(rem@[q2] == rem_b[d2]);
            }
        }
        proof {
            let p_int = p as int;
            assert(total.contains_key(x));
            assert(total[x] == w as int);
            assert(choice@ == choice_a.update(x as int, w));
            assert(settled(total, choice_a, rem_b, workers));
            assert forall|c: int|
                0 <= c < choice@.len() && !rem@.contains(c as usize) implies {
                    &&& (#[trigger] choice@[c]) as int == total[c as usize]
                    &&& choice@[c] < workers
                } by {
                assert(choice@ == choice_a.update(x as int, w));
                if c as usize == x {
                    assert(c == x as int);
                    assert(choice@[c] == w);
                } else {
                    assert(choice@[c] == choice_a[c]);
                    if rem_b.contains(c as usize) {
                        let q = choose|q: int| 0 <= q < rem_b.len() && rem_b[q] == c as usize;
                        if q < p_int {
                            assert(rem@[q] == c as usize);
                        } else if q > p_int {
                            assert(rem@[q - 1] == c as usize);
                        }
                    }
                    assert(!rem_b.contains(c as usize));
                }
            }
            assert(settled(total, choice@, rem@, workers));
        }
    }
    proof {
        lemma_greedy_dom(all_components(k as nat), sizes@, idle(workers as nat));
        assert forall|c: int| 0 <= c < k implies #[trigger] total.contains_key(c as usize) by {
            assert(all_components(k as nat)[c] == c as usize);
        }
    }
    choice
}

/// The components out of `rem` have their worker in `choice`, as `total` has it.
spec fn settled(total: Map<usize, int>, choice: Seq<usize>, rem: Seq<usize>, workers: usize) -> bool {
    forall|c: int|
        0 <= c < choice.len() && !rem.contains(c as usize) ==> {
            &&& (#[trigger] choice[c]) as int == total[c as usize]
            &&& choice[c] < workers
        }
}

/// The order in which the components `rem` are given out: the last of the largest remaining
/// first, then the others in the same way.
pub open spec fn pick_order(rem: Seq<usize>, sizes: Seq<usize>) -> Seq<usize>
    decreases rem.len(),
{
    if rem.len() == 0 {
        Seq::empty()
    } else {
        let p = last_largest(rem, sizes);
        if 0 <= p < rem.len() {
            seq![rem[p]] + pick_order(rem.remove(p), sizes)
        } else {
            Seq::empty()
        }
    }
}

/// The load of worker `w` before step `t` of `order`: the total size of the components that
/// `assign` gives it at the steps before `t`.
pub open spec fn load_before(assign: Map<usize, int>, order: Seq<usize>, sizes: Seq<usize>, w: int, t: int) -> int
    decreases t,
{
    if t <= 0 {
        0
    } else {
        load_before(assign, order, sizes, w, t - 1) + if assign[order[t - 1]] == w {
            sizes[order[t - 1] as int] as int
        } else {
            0
        }
    }
}

/// At step `t` of `o`, the component goes to a worker whose load is no more than that of
/// worker `v`.
pub open spec fn least_at(a: Map<usize, int>, o: Seq<usize>, sizes: Seq<usize>, loads: Seq<int>, t: int, v: int) -> bool {
    0 <= a[o[t]] < loads.len() && loads[a[o[t]]] + load_before(a, o, sizes, a[o[t]], t) <= loads[v] + load_before(a, o, sizes, v, t)
}

/// At step `t` of `o`, the component goes to one of `workers` workers, and that worker's load
/// (the total size of the components it was given before) is no more than that of worker `v`.
pub open spec fn least_loaded_at(a: Map<usize, int>, o: Seq<usize>, sizes: Seq<usize>, workers: nat, t: int, v: int) -> bool {
    &&& 0 <= a[o[t]] < workers
    &&& load_before(a, o, sizes, a[o[t]], t) <= load_before(a, o, sizes, v, t)
}

proof fn lemma_last_largest_max(rem: Seq<usize>, sizes: Seq<usize>)
    requires
        rem.len() > 0,
    ensures
        forall|q: int| 0 <= q < rem.len() ==> sizes[#[trigger] rem[q] as int] <= sizes[rem[last_largest(rem, sizes)] as int],
    decreases rem.len(),
{
    lemma_last_largest_range(rem, sizes);
    if rem.len() > 1 {
        lemma_last_largest_max(rem.drop_last(), sizes);
        lemma_last_largest_range(rem.drop_last(), sizes);
        let p = last_largest(rem.drop_last(), sizes);
        assert forall|q: int| 0 <= q < rem.len() implies sizes[#[trigger] rem[q] as int] <= sizes[rem[last_largest(rem, sizes)] as int] by {
            if q < rem.len() - 1 {
                assert(rem.drop_last()[q] == rem[q]);
            }
            assert(rem.drop_last()[p] == rem[p]);
        }
    }
}

proof fn lemma_first_least_min(loads: Seq<int>)
    requires
        loads.len() > 0,
    ensures
        forall|v: int| 0 <= v < loads.len() ==> loads[first_least(loads)] <= #[trigger] loads[v],
    decreases loads.len(),
{
    lemma_first_least_range(loads);
    if loads.len() > 1 {
        lemma_first_least_min(loads.drop_last());
        lemma_first_least_range(loads.drop_last());
        let p = first_least(loads.drop_last());
        assert forall|v: int| 0 <= v < loads.len() implies loads[first_least(loads)] <= #[trigger] loads[v] by {
            if v < loads.len() - 1 {
                assert(loads.drop_last()[v] == loads[v]);
            }
            assert(loads.drop_last()[p] == loads[p]);
        }
    }
}

/// The order gives out each remaining component exactly once.
proof fn lemma_pick_order_perm(rem: Seq<usize>, sizes: Seq<usize>)
    requires
        rem.no_duplicates(),
    ensures
        pick_order(rem, sizes).len() == rem.len(),
        pick_order(rem, sizes).no_duplicates(),
        forall|x: usize| #[trigger] pick_order(rem, sizes).contains(x) <==> rem.contains(x),
    decreases rem.len(),
{
    if rem.len() > 0 {
        lemma_last_largest_range(rem, sizes);
        let p = last_largest(rem, sizes);
        let c = rem[p];
        let rest = rem.remove(p);
        assert forall|i: int, j: int| 0 <= i < j < rest.len() implies rest[i] != rest[j] by {
            let ii = if i < p { i } else { i + 1 };
            let jj = if j < p { j } else { j + 1 };
            assert(rest[i] == rem[ii] && rest[j] == rem[jj]);
        }
        lemma_pick_order_perm(rest, sizes);
        let o2 = pick_order(rest, sizes);
        let o = pick_order(rem, sizes);
        assert(o == seq![c] + o2);
        assert forall|x: usize| #[trigger] rest.contains(x) <==> (rem.contains(x) && x != c) by {
            if rest.contains(x) {
                let q = choose|q: int| 0 <= q < rest.len() && rest[q] == x;
                let qq = if q < p { q } else { q + 1 };
                assert(rem[qq] == x);
                assert(qq != p);
            }
            if rem.contains(x) && x != c {
                let q = choose|q: int| 0 <= q < rem.len() && rem[q] == x;
                if q < p {
                    assert(rest[q] == x);
                } else {
                    assert(q != p);
                    assert(rest[q - 1] == x);
                }
            }
        }
        assert forall|x: usize| #[trigger] o.contains(x) <==> rem.contains(x) by {
            if o.contains(x) {
                let q = choose|q: int| 0 <= q < o.len() && o[q] == x;
                if q > 0 {
                    assert(o2[q - 1] == x);
                    assert(o2.contains(x));
                }
            }
            if rem.contains(x) {
                if x == c {
                    assert(o[0] == x);
                } else {
                    assert(o2.contains(x));
                    let q = choose|q: int| 0 <= q < o2.len() && o2[q] == x;
                    assert(o[q + 1] == x);
                }
            }
        }
        assert forall|i: int, j: int| 0 <= i < j < o.len() implies o[i] != o[j] by {
            if i == 0 {
                assert(o[j] == o2[j - 1]);
                assert(o2.contains(o2[j - 1]));
                assert(rest.contains(o2[j - 1]));
            } else {
                assert(o[i] == o2[i - 1] && o[j] == o2[j - 1]);
            }
        }
    }
}

/// The loads before a step of an order that starts with `c` are those of the rest of the order
/// one step earlier, after `c`.
proof fn lemma_load_before_shift(a: Map<usize, int>, c: usize, o2: Seq<usize>, sizes: Seq<usize>, w: int, t: int)
    requires
        1 <= t <= o2.len() + 1,
    ensures
        load_before(a, seq![c] + o2, sizes, w, t) == (if a[c] == w {
            sizes[c as int] as int
        } else {
            0
        }) + load_before(a, o2, sizes, w, t - 1),
    decreases t,
{
    let o = seq![c] + o2;
    assert(load_before(a, o, sizes, w, t) == load_before(a, o, sizes, w, t - 1) + (if a[o[t - 1]] == w {
        sizes[o[t - 1] as int] as int
    } else {
        0
    }));
    if t > 1 {
        lemma_load_before_shift(a, c, o2, sizes, w, t - 1);
        assert(o[t - 1] == o2[t - 2]);
        assert(load_before(a, o2, sizes, w, t - 1) == load_before(a, o2, sizes, w, t - 2) + (if a[o2[t - 2]] == w {
            sizes[o2[t - 2] as int] as int
        } else {
            0
        }));
    } else {
        assert(o[0] == c);
        assert(load_before(a, o, sizes, w, 0) == 0);
        assert(load_before(a, o2, sizes, w, 0) == 0);
    }
}

/// The loads before a step depend only on where the components given out before it went.
proof fn lemma_load_before_agree(a: Map<usize, int>, b: Map<usize, int>, o: Seq<usize>, sizes: Seq<usize>, w: int, t: int)
    requires
        forall|s: int| 0 <= s < t ==> a[#[trigger] o[s]] == b[o[s]],
    ensures
        load_before(a, o, sizes, w, t) == load_before(b, o, sizes, w, t),
    decreases t,
{
    if t > 0 {
        lemma_load_before_agree(a, b, o, sizes, w, t - 1);
        assert(a[o[t - 1]] == b[o[t - 1]]);
    }
}

/// The rule of the distribution by connected components, from loads `loads`: the components
/// are given out largest first, and each goes to a worker whose load is least at that step, a
/// worker's load being its initial load and the total size of the components given to it
/// before (not their number).
proof fn lemma_greedy_least_loaded(rem: Seq<usize>, sizes: Seq<usize>, loads: Seq<int>)
    requires
        rem.no_duplicates(),
        loads.len() > 0,
    ensures
        ({
            let a = greedy(rem, sizes, loads);
            let o = pick_order(rem, sizes);
            &&& forall|t: int, v: int| 0 <= t < o.len() && 0 <= v < loads.len() ==> #[trigger] least_at(a, o, sizes, loads, t, v)
            &&& forall|t: int, s: int| 0 <= t < s < o.len() ==> sizes[#[trigger] o[s] as int] <= sizes[#[trigger] o[t] as int]
        }),
    decreases rem.len(),
{
    if rem.len() > 0 {
        lemma_last_largest_range(rem, sizes);
        lemma_last_largest_max(rem, sizes);
        lemma_first_least_range(loads);
        lemma_first_least_min(loads);
        lemma_pick_order_perm(rem, sizes);
        let p = last_largest(rem, sizes);
        let c = rem[p];
        let w = first_least(loads);
        let rest = rem.remove(p);
        let loads2 = loads.update(w, loads[w] + sizes[c as int]);
        assert forall|i: int, j: int| 0 <= i < j < rest.len() implies rest[i] != rest[j] by {
            let ii = if i < p { i } else { i + 1 };
            let jj = if j < p { j } else { j + 1 };
            assert(rest[i] == rem[ii] && rest[j] == rem[jj]);
        }
        lemma_pick_order_perm(rest, sizes);
        lemma_greedy_least_loaded(rest, sizes, loads2);
        let a2 = greedy(rest, sizes, loads2);
        let a = greedy(rem, sizes, loads);
        let o2 = pick_order(rest, sizes);
        let o = pick_order(rem, sizes);
        assert(a == a2.insert(c, w));
        assert(o == seq![c] + o2);
        assert forall|x: usize| #[trigger] rest.contains(x) ==> x != c && rem.contains(x) by {
            if rest.contains(x) {
                let q = choose|q: int| 0 <= q < rest.len() && rest[q] == x;
                let qq = if q < p { q } else { q + 1 };
                assert(rem[qq] == x);
            }
        }
        assert forall|s: int| 0 <= s < o2.len() implies #[trigger] o2[s] != c && a[o2[s]] == a2[o2[s]] by {
            assert(o2.contains(o2[s]));
            assert(rest.contains(o2[s]));
        }
        assert forall|t: int, v: int| 0 <= t < o.len() && 0 <= v < loads.len() implies #[trigger] least_at(a, o, sizes, loads, t, v) by {
            if t == 0 {
                assert(o[0] == c);
            } else {
                let x = o2[t - 1];
                assert(o[t] == x);
                assert(0 <= t - 1 < o2.len());
                assert(0 <= v < loads2.len());
                assert(least_at(a2, o2, sizes, loads2, t - 1, v));
                let u = a[x];
                assert(u == a2[x]);
                lemma_load_before_shift(a, c, o2, sizes, u, t);
                lemma_load_before_shift(a, c, o2, sizes, v, t);
                assert forall|s: int| 0 <= s < t - 1 implies a[#[trigger] o2[s]] == a2[o2[s]] by {}
                lemma_load_before_agree(a, a2, o2, sizes, u, t - 1);
                lemma_load_before_agree(a, a2, o2, sizes, v, t - 1);
            }
        }
        assert forall|t: int, s: int| 0 <= t < s < o.len() implies sizes[#[trigger] o[s] as int] <= sizes[#[trigger] o[t] as int] by {
            if t == 0 {
                assert(o[s] == o2[s - 1]);
                assert(o2.contains(o2[s - 1]));
                assert(rem.contains(o2[s - 1]));
                let q = choose|q: int| 0 <= q < rem.len() && rem[q] == o2[s - 1];
                assert(sizes[rem[q] as int] <= sizes[rem[p] as int]);
            } else {
                assert(o[s] == o2[s - 1] && o[t] == o2[t - 1]);
            }
        }
    }
}

/// The rule of the distribution by connected components of sizes `sizes` over `workers` idle
/// workers (what `greedy_choice` computes): every component is given out once, largest first,
/// and each goes to a worker whose load is least at that step, a worker's load being the total
/// size of the components given to it before (not their number).
pub proof fn law_greedy_least_loaded(sizes: Seq<usize>, workers: nat)
    requires
        workers > 0,
        sizes.len() <= usize::MAX,
    ensures
        ({
            let a = greedy(all_components(sizes.len()), sizes, idle(workers));
            let o = pick_order(all_components(sizes.len()), sizes);
            &&& o.len() == sizes.len()
            &&& o.no_duplicates()
            &&& forall|c: usize| #[trigger] o.contains(c) <==> c < sizes.len()
            &&& forall|t: int, v: int| 0 <= t < o.len() && 0 <= v < workers ==> #[trigger] least_loaded_at(a, o, sizes, workers, t, v)
            &&& forall|t: int, s: int| 0 <= t < s < o.len() ==> sizes[#[trigger] o[s] as int] <= sizes[#[trigger] o[t] as int]
        }),
{
    let rem = all_components(sizes.len());
    assert forall|i: int, j: int| 0 <= i < j < rem.len() implies rem[i] != rem[j] by {
        assert(rem[i] == i as usize && rem[j] == j as usize);
    }
    lemma_pick_order_perm(rem, sizes);
    lemma_greedy_least_loaded(rem, sizes, idle(workers));
    let a = greedy(rem, sizes, idle(workers));
    let o = pick_order(rem, sizes);
    assert forall|t: int, v: int| 0 <= t < o.len() && 0 <= v < workers implies #[trigger] least_loaded_at(a, o, sizes, workers, t, v) by {
        assert(least_at(a, o, sizes, idle(workers), t, v));
        assert(idle(workers)[a[o[t]]] == 0);
        assert(idle(workers)[v] == 0);
    }
    assert(forall|t: int, s: int| 0 <= t < s < o.len() ==> sizes[#[trigger] o[s] as int] <= sizes[#[trigger] o[t] as int]);
    assert forall|c: usize| #[trigger] rem.contains(c) <==> c < sizes.len() by {
        if c < sizes.len() {
            assert(rem[c as int] == c);
        }
        if rem.contains(c) {
            let q = choose|q: int| 0 <= q < rem.len() && rem[q] == c;
            assert(rem[q] == q as usize);
        }
    }
    assert(o.len() == sizes.len());
    assert(o.no_duplicates());
    assert forall|c: usize| #[trigger] o.contains(c) <==> c < sizes.len() by {
        assert(o.contains(c) <==> rem.contains(c));
    }
}

} // verus!
