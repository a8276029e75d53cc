use vstd::prelude::*;

verus! {

/// The symbols (Unicode scalar values) of a text.
pub open spec fn symbols(s: Seq<char>) -> Seq<u32> {
    s.map_values(|c: char| c as u32)
}

/// Index of the first entry of `t` whose symbol is `c`.
pub open spec fn find(t: Seq<(u32, u64)>, c: u32) -> Option<int>
    decreases t.len(),
{
    if t.len() == 0 {
        None
    } else if t[0].0 == c {
        Some(0)
    } else {
        match find(t.drop_first(), c) {
            Some(i) => Some(i + 1),
            None => None,
        }
    }
}

/// The frequency table of `s`: one entry per distinct symbol, in order of
/// first occurrence, with the number of times it occurs.
pub open spec fn freq_table(s: Seq<u32>) -> Seq<(u32, u64)>
    decreases s.len(),
{
    if s.len() == 0 {
        Seq::empty()
    } else {
        let t = freq_table(s.drop_last());
        let c = s.last();
        match find(t, c) {
            Some(i) => t.update(i, (c, (t[i].1 + 1) as u64)),
            None => t.push((c, 1u64)),
        }
    }
}

/// Sum of the counts of a frequency table.
pub open spec fn total(t: Seq<(u32, u64)>) -> nat
    decreases t.len(),
{
    if t.len() == 0 {
        0
    } else {
        total(t.drop_last()) + t.last().1 as nat
    }
}

pub proof fn lemma_find(t: Seq<(u32, u64)>, c: u32)
    ensures
        match find(t, c) {
            Some(i) => 0 <= i < t.len() && t[i].0 == c && forall|k: int|
                0 <= k < i ==> t[k].0 != c,
            None => forall|k: int| 0 <= k < t.len() ==> t[k].0 != c,
        },
    decreases t.len(),
{
    if t.len() > 0 {
        lemma_find(t.drop_first(), c);
        assert forall|k: int| 0 < k < t.len() implies #[trigger] t[k] == t.drop_first()[k - 1] by {}
    }
}

proof fn lemma_total_update(t: Seq<(u32, u64)>, i: int, e: (u32, u64))
    requires
        0 <= i < t.len(),
    ensures
        total(t.update(i, e)) + t[i].1 == total(t) + e.1,
    decreases t.len(),
{
    let u = t.update(i, e);
    if i == t.len() - 1 {
        assert(u.drop_last() =~= t.drop_last());
    } else {
        assert(u.drop_last() =~= t.drop_last().update(i, e));
        lemma_total_update(t.drop_last(), i, e);
    }
}

proof fn lemma_total_bound(t: Seq<(u32, u64)>, k: int)
    requires
        0 <= k < t.len(),
    ensures
        t[k].1 <= total(t),
    decreases t.len(),
{
    if k < t.len() - 1 {
        lemma_total_bound(t.drop_last(), k);
    }
}

/// The frequency table of `s` has an entry for every symbol of `s`, one
/// entry per symbol, counts that are the symbols' numbers of occurrences (so
/// at least one), and counts that add up to the length of `s`.
pub proof fn lemma_freq_table(s: Seq<u32>)
    requires
        s.len() <= u64::MAX,
    ensures
        total(freq_table(s)) == s.len(),
        forall|k: int| 0 <= k < freq_table(s).len() ==> 1 <= #[trigger] freq_table(s)[k].1,
        forall|k: int|
            0 <= k < freq_table(s).len() ==> #[trigger] freq_table(s)[k].1 == s.to_multiset().count(
                freq_table(s)[k].0,
            ),
        forall|i: int, j: int|
            0 <= i < j < freq_table(s).len() ==> #[trigger] freq_table(s)[i].0 != #[trigger] freq_table(
                s,
            )[j].0,
        forall|j: int| 0 <= j < s.len() ==> #[trigger] find(freq_table(s), s[j]) is Some,
        s.len() > 0 ==> freq_table(s).len() > 0,
    decreases s.len(),
{
    if s.len() == 0 {
        s.to_multiset_ensures();
    } else {
        let p = s.drop_last();
        lemma_freq_table(p);
        let t = freq_table(p);
        let c = s.last();
        lemma_find(t, c);
        let u = freq_table(s);
        assert(s =~= p.push(c));
        p.to_multiset_ensures();
        assert(s.to_multiset() =~= p.to_multiset().insert(c));
        match find(t, c) {
            Some(i) => {
                lemma_total_bound(t, i);
                lemma_total_update(t, i, (c, (t[i].1 + 1) as u64));
                assert forall|k: int| 0 <= k < u.len() implies 1 <= #[trigger] u[k].1 by {
                    if k != i {
                        assert(u[k] == t[k]);
                    }
                }
                assert forall|k: int| 0 <= k < u.len() implies #[trigger] u[k].1
                    == s.to_multiset().count(u[k].0) by {
                    if k != i {
                        assert(u[k] == t[k]);
                        assert(t[k].0 != t[i].0);
                    }
                }
                assert forall|a: int, b: int| 0 <= a < b < u.len() implies #[trigger] u[a].0
                    != #[trigger] u[b].0 by {
                    assert(t[a].0 != t[b].0);
                }
            },
            None => {
                assert(u.drop_last() =~= t);
                assert forall|k: int| 0 <= k < u.len() implies 1 <= #[trigger] u[k].1 by {
                    if k < t.len() {
                        assert(u[k] == t[k]);
                    }
                }
                assert forall|k: int| 0 <= k < u.len() implies #[trigger] u[k].1
                    == s.to_multiset().count(u[k].0) by {
                    if k < t.len() {
                        assert(u[k] == t[k]);
                    } else {
                        assert(!p.contains(c)) by {
                            if p.contains(c) {
                                let m = choose|m: int| 0 <= m < p.len() && p[m] == c;
                                assert(find(t, p[m]) is Some);
                            }
                        }
                    }
                }
                assert forall|a: int, b: int| 0 <= a < b < u.len() implies #[trigger] u[a].0
                    != #[trigger] u[b].0 by {
                    if b < t.len() {
                        assert(t[a].0 != t[b].0);
                    }
                }
            },
        }
        assert forall|j: int| 0 <= j < s.len() implies #[trigger] find(u, s[j]) is Some by {
            lemma_find(u, s[j]);
            if j < s.len() - 1 {
                assert(s[j] == p[j]);
                lemma_find(t, s[j]);
                let m = find(t, s[j])->Some_0;
                assert(u[m].0 == s[j]);
            } else {
                match find(t, c) {
                    Some(i) => {
                        assert(u[i].0 == c);
                    },
                    None => {
                        assert(u[t.len() as int].0 == c);
                    },
                }
            }
        }
    }
}

/// The symbols of `s`, one per character.
pub fn symbols_of(s: &str) -> (r: Vec<u32>)
    ensures
        r@ == symbols(s@),
{
    let mut r: Vec<u32> = Vec::new();
    for c in it: s.chars()
        invariant
            it.seq() == s@,
            r@.len() == it.index(),
            r@ == symbols(s@.take(r@.len() as int)),
    {
        proof {
            assert(s@.take(r@.len() as int + 1).drop_last() =~= s@.take(r@.len() as int));
        }
        r.push(c as u32);
        proof {
            assert(r@ =~= symbols(s@.take(r@.len() as int)));
        }
    }
    assert(s@.take(r@.len() as int) =~= s@);
    r
}

fn find_entry(t: &Vec<(u32, u64)>, c: u32) -> (r: Option<usize>)
    ensures
        match r {
            Some(i) => find(t@, c) == Some(i as int),
            None => find(t@, c) is None,
        },
{
    proof {
        lemma_find(t@, c);
    }
    let mut i: usize = 0;
    while i < t.len()
        invariant
            i <= t@.len(),
            forall|k: int| 0 <= k < i ==> t@[k].0 != c,
            match find(t@, c) {
                Some(m) => 0 <= m < t@.len() && t@[m].0 == c && forall|k: int|
                    0 <= k < m ==> t@[k].0 != c,
                None => forall|k: int| 0 <= k < t@.len() ==> t@[k].0 != c,
            },
        decreases t@.len() - i,
    {
        if t[i].0 == c {
            return Some(i);
        }
        i = i + 1;
    }
    None
}

/// Counts each symbol of `contents`: one entry per distinct symbol, in order
/// of first occurrence, with its number of occurrences.
pub fn char_freq(contents: &str) -> (r: Vec<(u32, u64)>)
    ensures
        r@ == freq_table(symbols(contents@)),
        forall|i: int, j: int| 0 <= i < j < r@.len() ==> #[trigger] r@[i].0 != #[trigger] r@[j].0,
        forall|k: int|
            0 <= k < r@.len() ==> #[trigger] r@[k].1 == symbols(contents@).to_multiset().count(
                r@[k].0,
            ) && r@[k].1 >= 1,
        forall|c: char| #[trigger] contents@.contains(c) ==> find(r@, c as u32) is Some,
{
    let syms = symbols_of(contents);
    let n = syms.len();
    let mut t: Vec<(u32, u64)> = Vec::new();
    let mut j: usize = 0;
    while j < n
        invariant
            j <= n,
            n == syms@.len(),
            t@ == freq_table(syms@.take(j as int)),
        decreases n - j,
    {
        let c = syms[j];
        let ghost p = syms@.take(j as int);
        proof {
            assert(syms@.take(j + 1).drop_last() =~= p);
            lemma_freq_table(p);
        }
        match find_entry(&t, c) {
            Some(i) => {
                proof {
                    lemma_find(t@, c);
                    lemma_total_bound(t@, i as int);
                }
                let count = t[i].1 + 1;
                t.set(i, (c, count));
            },
            None => {
                t.push((c, 1));
            },
        }
        j = j + 1;
    }
    assert(syms@.take(n as int) =~= syms@);
    proof {
        lemma_freq_table(syms@);
        assert forall|c: char| #[trigger] contents@.contains(c) implies find(t@, c as u32) is Some by {
            let m = choose|m: int| 0 <= m < contents@.len() && contents@[m] == c;
            assert(syms@[m] == c as u32);
        }
    }
    t
}

} // verus!
