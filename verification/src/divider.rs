use vstd::prelude::*;

verus! {

/// `d` belongs to the divisor table built for `t`: it divides `t` and lies in
/// `[2, t]` (the table never lists `1`).
pub open spec fn is_table_divisor(t: int, d: int) -> bool {
    2 <= d <= t && t % d == 0
}

/// `s` is a strictly ascending list holding exactly the table divisors of `t`
/// that also divide `n`.
pub open spec fn divisor_list_ok(t: int, n: int, s: Seq<u32>) -> bool {
    &&& forall|i: int, j: int| 0 <= i < j < s.len() ==> s[i] < s[j]
    &&& forall|i: int|
        0 <= i < s.len() ==> is_table_divisor(t, #[trigger] s[i] as int) && n % (s[i] as int) == 0
    &&& forall|e: u32|
        is_table_divisor(t, e as int) && n % (e as int) == 0 ==> #[trigger] s.contains(e)
}

/// What the table stores at index `n`: the divisor list of `n` where `n` is a
/// divisor of the table's target (or the target itself), and an empty list at
/// every other index.
pub open spec fn divisor_entry_ok(t: int, n: int, s: Seq<u32>) -> bool {
    if is_table_divisor(t, n) || n == t {
        divisor_list_ok(t, n, s)
    } else {
        s.len() == 0
    }
}

/// Precomputed divisor table for one target value: for every divisor `d` of
/// the target (and for the target itself) it stores, ascending, the divisors
/// of `d` drawn from the target's own divisor set.
#[derive(Debug)]
pub struct Divider {
    pub all_divisors: Vec<Vec<u32>>,
}

impl Divider {
    /// The target the table was built for.
    pub open spec fn spec_target(&self) -> int {
        self.all_divisors@.len() - 1
    }

    pub open spec fn wf(&self) -> bool {
        &&& self.all_divisors@.len() >= 1
        &&& forall|n: int|
            0 <= n <= self.spec_target() ==> divisor_entry_ok(
                self.spec_target(),
                n,
                #[trigger] self.all_divisors@[n]@,
            )
    }

    /// Build the table for `target` by trial division.
    pub fn new(target: u32) -> (r: Divider)
        requires
            target < u32::MAX,
        ensures
            r.wf(),
            r.spec_target() == target as int,
    {
        let ghost t = target as int;
        let mut main_divisors: Vec<u32> = Vec::new();
        let mut d: u32 = 2;
        while d <= target
            invariant
                target < u32::MAX,
                2 <= d,
                forall|i: int|
                    0 <= i < main_divisors@.len() ==> 2 <= #[trigger] main_divisors@[i]
                        && main_divisors@[i] <= target && main_divisors@[i] < d
                        && target % main_divisors@[i] == 0,
                forall|e: u32|
                    2 <= e < d && target % e == 0 ==> #[trigger] main_divisors@.contains(e),
                forall|i: int, j: int|
                    0 <= i < j < main_divisors@.len() ==> main_divisors@[i] < main_divisors@[j],
            decreases target + 1 - d,
        {
            let ghost pre = main_divisors@;
            if target % d == 0 {
                main_divisors.push(d);
            }
            proof {
                assert forall|e: u32| 2 <= e < d + 1 && target % e == 0
                    implies #[trigger] main_divisors@.contains(e) by {
                    if e == d {
                        assert(main_divisors@[main_divisors@.len() - 1] == e);
                    } else {
                        assert(pre.contains(e));
                        let i = choose|i: int| 0 <= i < pre.len() && pre[i] == e;
                        assert(main_divisors@[i] == e);
                    }
                }
            }
            d += 1;
        }

        proof {
            assert forall|e: u32| is_table_divisor(t, e as int)
                implies #[trigger] main_divisors@.contains(e) by {
                assert(2 <= e < d && target % e == 0);
            }
        }

        let mut all_divisors: Vec<Vec<u32>> = Vec::new();
        let mut n: u32 = 0;
        while n <= target
            invariant
                t == target as int,
                target < u32::MAX,
                n <= target + 1,
                all_divisors@.len() == n as int,
                forall|i: int|
                    0 <= i < main_divisors@.len() ==> is_table_divisor(
                        t,
                        #[trigger] main_divisors@[i] as int,
                    ),
                forall|e: u32|
                    is_table_divisor(t, e as int) ==> #[trigger] main_divisors@.contains(e),
                forall|i: int, j: int|
                    0 <= i < j < main_divisors@.len() ==> main_divisors@[i] < main_divisors@[j],
                forall|m: int|
                    0 <= m < n as int ==> divisor_entry_ok(t, m, #[trigger] all_divisors@[m]@),
            decreases target + 1 - n,
        {
            let ghost pre_all = all_divisors@;
            if n >= 2 && target % n == 0 {
                let mut divisors: Vec<u32> = Vec::new();
                let mut k: usize = 0;
                while k < main_divisors.len()
                    invariant
                        t == target as int,
                        k <= main_divisors@.len(),
                        n >= 2,
                        n <= target,
                        forall|i: int|
                            0 <= i < main_divisors@.len() ==> is_table_divisor(
                                t,
                                #[trigger] main_divisors@[i] as int,
                            ),
                        forall|i: int, j: int|
                            0 <= i < j < main_divisors@.len() ==> main_divisors@[i]
                                < main_divisors@[j],
                        forall|i: int|
                            0 <= i < divisors@.len() ==> exists|j: int|
                                0 <= j < k && main_divisors@[j] == #[trigger] divisors@[i],
                        forall|i: int|
                            0 <= i < divisors@.len() ==> is_table_divisor(
                                t,
                                #[trigger] divisors@[i] as int,
                            ) && n as int % (divisors@[i] as int) == 0,
                        forall|j: int|
                            0 <= j < k && n as int % (#[trigger] main_divisors@[j] as int) == 0
                                ==> divisors@.contains(main_divisors@[j]),
                        forall|i: int, j: int|
                            0 <= i < j < divisors@.len() ==> divisors@[i] < divisors@[j],
                    decreases main_divisors@.len() - k,
                {
                    let e = main_divisors[k];
                    let ghost pre = divisors@;
                    if n % e == 0 {
                        proof {
                            assert forall|i: int| 0 <= i < pre.len() implies pre[i] < e by {
                                let j = choose|j: int| 0 <= j < k && main_divisors@[j] == pre[i];
                                assert(main_divisors@[j] < main_divisors@[k as int]);
                            }
                        }
                        divisors.push(e);
                    }
                    proof {
                        assert forall|j: int|
                            0 <= j < k + 1 && n as int % (#[trigger] main_divisors@[j] as int) == 0
                                implies divisors@.contains(main_divisors@[j]) by {
                            if j == k {
                                assert(divisors@[divisors@.len() - 1] == e);
                            } else {
                                assert(pre.contains(main_divisors@[j]));
                                let i = choose|i: int|
                                    0 <= i < pre.len() && pre[i] == main_divisors@[j];
                                assert(divisors@[i] == main_divisors@[j]);
                            }
                        }
                        assert forall|i: int| 0 <= i < divisors@.len() implies exists|j: int|
                            0 <= j < k + 1 && main_divisors@[j] == #[trigger] divisors@[i] by {
                            if i < pre.len() {
                                let j = choose|j: int|
                                    0 <= j < k && main_divisors@[j] == pre[i];
                                assert(0 <= j < k + 1 && main_divisors@[j] == divisors@[i]);
                            } else {
                                assert(main_divisors@[k as int] == divisors@[i]);
                            }
                        }
                    }
                    k += 1;
                }
                proof {
                    assert forall|e: u32|
                        is_table_divisor(t, e as int) && n as int % (e as int) == 0
                            implies #[trigger] divisors@.contains(e) by {
                        assert(main_divisors@.contains(e));
                        let j = choose|j: int|
                            0 <= j < main_divisors@.len() && main_divisors@[j] == e;
                        assert(divisors@.contains(main_divisors@[j]));
                    }
                    assert(divisor_list_ok(t, n as int, divisors@));
                }
                let ghost dv = divisors@;
                all_divisors.push(divisors);
                proof {
                    assert(all_divisors@[n as int]@ == dv);
                    assert(divisor_entry_ok(t, n as int, all_divisors@[n as int]@));
                    assert(forall|m: int|
                        0 <= m < n as int ==> #[trigger] all_divisors@[m]@ == pre_all[m]@);
                }
            } else {
                let empty: Vec<u32> = Vec::new();
                proof {
                    if is_table_divisor(t, n as int) || n as int == t {
                        // Only the target itself can land here, and only when
                        // it is 0 or 1, where the divisor list is empty anyway.
                        assert(!is_table_divisor(t, n as int));
                        assert(n as int == t);
                        if t >= 2 {
                            assert(t % t == 0) by (nonlinear_arith)
                                requires
                                    t >= 2,
                            ;
                            assert(false);
                        }
                        assert(divisor_list_ok(t, n as int, empty@));
                    }
                    assert(divisor_entry_ok(t, n as int, empty@));
                }
                let ghost ev = empty@;
                all_divisors.push(empty);
                proof {
                    assert(all_divisors@[n as int]@ == ev);
                    assert(forall|m: int|
                        0 <= m < n as int ==> #[trigger] all_divisors@[m]@ == pre_all[m]@);
                }
            }
            n += 1;
        }

        Divider { all_divisors }
    }

    /// The stored divisor list for `n`. Meaningful only when `n` divides the
    /// target (or is the target); any other index holds an empty list.
    pub fn divisors(&self, n: u32) -> (r: &Vec<u32>)
        requires
            self.wf(),
            n as int <= self.spec_target(),
        ensures
            r@ == self.all_divisors@[n as int]@,
            divisor_entry_ok(self.spec_target(), n as int, r@),
    {
        &self.all_divisors[n as usize]
    }
}

} // verus!
