//! Sorting by an integer key.

use vstd::prelude::*;
use vstd::seq_lib::{group_to_multiset_ensures, to_multiset_build};

use crate::net::Ipv4Addr;

verus! {

/// Values ordered by an integer.
pub trait SortKey: Sized {
    spec fn key(self) -> int;

    fn key_of(&self) -> (k: u32)
        ensures
            k == self.key(),
    ;
}

impl SortKey for u16 {
    open spec fn key(self) -> int {
        self as int
    }

    fn key_of(&self) -> u32 {
        *self as u32
    }
}

impl SortKey for Ipv4Addr {
    open spec fn key(self) -> int {
        self.bits as int
    }

    fn key_of(&self) -> u32 {
        self.bits
    }
}

impl SortKey for (u16, String) {
    open spec fn key(self) -> int {
        self.0 as int
    }

    fn key_of(&self) -> u32 {
        self.0 as u32
    }
}

impl SortKey for (Ipv4Addr, u16) {
    open spec fn key(self) -> int {
        self.1 as int
    }

    fn key_of(&self) -> u32 {
        self.1 as u32
    }
}

/// Whether the keys never fall from left to right.
pub open spec fn ascending<T: SortKey>(s: Seq<T>) -> bool {
    forall|i: int, j: int| 0 <= i < j < s.len() ==> #[trigger] s[i].key() <= #[trigger] s[j].key()
}

/// Whether the keys rise from left to right.
pub open spec fn strictly_ascending<T: SortKey>(s: Seq<T>) -> bool {
    forall|i: int, j: int| 0 <= i < j < s.len() ==> #[trigger] s[i].key() < #[trigger] s[j].key()
}

/// Whether the keys never rise from left to right.
spec fn descending<T: SortKey>(s: Seq<T>) -> bool {
    forall|i: int, j: int| 0 <= i < j < s.len() ==> #[trigger] s[i].key() >= #[trigger] s[j].key()
}

/// Whether every key of `a` is at most every key of `b`.
spec fn below<T: SortKey>(a: Seq<T>, b: Seq<T>) -> bool {
    forall|i: int, j: int|
        0 <= i < a.len() && 0 <= j < b.len() ==> #[trigger] a[i].key() <= #[trigger] b[j].key()
}

proof fn lemma_pop<T>(s: Seq<T>)
    requires
        s.len() > 0,
    ensures
        s.to_multiset() == s.drop_last().to_multiset().insert(s.last()),
{
    broadcast use group_to_multiset_ensures;

    assert(s =~= s.drop_last().push(s.last()));
}

/// The same elements from right to left.
fn reversed<T: SortKey>(v: Vec<T>) -> (out: Vec<T>)
    requires
        descending(v@),
    ensures
        ascending(out@),
        out@.to_multiset() == v@.to_multiset(),
{
    broadcast use group_to_multiset_ensures;

    let mut v = v;
    let ghost all = v@.to_multiset();
    let mut out: Vec<T> = Vec::new();
    assert(out@.to_multiset() =~= vstd::multiset::Multiset::empty());
    assert(all =~= v@.to_multiset().add(out@.to_multiset()));
    while v.len() > 0
        invariant
            descending(v@),
            ascending(out@),
            below(out@, v@),
            all == v@.to_multiset().add(out@.to_multiset()),
        decreases v@.len(),
    {
        let ghost v0 = v@;
        let ghost out0 = out@;
        proof {
            lemma_pop(v0);
        }
        match v.pop() {
            Some(x) => {
                out.push(x);
                assert(v@ == v0.drop_last() && x == v0.last());
                proof {
                    to_multiset_build(out0, x);
                }
                assert(all =~= v@.to_multiset().add(out@.to_multiset()));
            },
            None => {},
        }
    }
    assert(v@ =~= Seq::empty());
    assert(all =~= out@.to_multiset());
    out
}

/// One ascending vector from two.
fn merge<T: SortKey>(a: Vec<T>, b: Vec<T>) -> (out: Vec<T>)
    requires
        ascending(a@),
        ascending(b@),
    ensures
        ascending(out@),
        out@.to_multiset() == a@.to_multiset().add(b@.to_multiset()),
{
    broadcast use group_to_multiset_ensures;

    let mut a = a;
    let mut b = b;
    let ghost all = a@.to_multiset().add(b@.to_multiset());
    let mut rev: Vec<T> = Vec::new();
    assert(rev@.to_multiset() =~= vstd::multiset::Multiset::empty());
    assert(all =~= a@.to_multiset().add(b@.to_multiset()).add(rev@.to_multiset()));
    while a.len() > 0 || b.len() > 0
        invariant
            ascending(a@),
            ascending(b@),
            descending(rev@),
            below(a@, rev@),
            below(b@, rev@),
            all == a@.to_multiset().add(b@.to_multiset()).add(rev@.to_multiset()),
        decreases a@.len() + b@.len(),
    {
        let ghost a0 = a@;
        let ghost b0 = b@;
        let ghost rev0 = rev@;
        let take_a = if b.len() == 0 {
            true
        } else if a.len() == 0 {
            false
        } else {
            a[a.len() - 1].key_of() > b[b.len() - 1].key_of()
        };
        let popped = if take_a {
            proof {
                lemma_pop(a0);
            }
            a.pop()
        } else {
            proof {
                lemma_pop(b0);
            }
            b.pop()
        };
        match popped {
            Some(x) => {
                rev.push(x);
                proof {
                    to_multiset_build(rev0, x);
                }
                assert(all =~= a@.to_multiset().add(b@.to_multiset()).add(rev@.to_multiset()));
            },
            None => {},
        }
    }
    assert(a@ =~= Seq::empty());
    assert(b@ =~= Seq::empty());
    assert(all =~= rev@.to_multiset());
    reversed(rev)
}

/// The same elements, ordered by their keys.
pub fn sort_by_key<T: SortKey>(v: Vec<T>) -> (out: Vec<T>)
    ensures
        ascending(out@),
        out@.to_multiset() == v@.to_multiset(),
        out@.len() == v@.len(),
        forall|x: T| #[trigger] out@.contains(x) <==> v@.contains(x),
    decreases v@.len(),
{
    broadcast use group_to_multiset_ensures;

    if v.len() <= 1 {
        return v;
    }
    let mut left = v;
    let ghost all = left@;
    let mid = left.len() / 2;
    let right = left.split_off(mid);
    let ghost l = left@;
    let ghost r = right@;
    let sorted_left = sort_by_key(left);
    let sorted_right = sort_by_key(right);
    let out = merge(sorted_left, sorted_right);
    proof {
        assert(l + r =~= all);
        vstd::seq_lib::lemma_multiset_commutative(l, r);
        assert(out@.to_multiset() == all.to_multiset());
        assert(out@.to_multiset().len() == all.to_multiset().len());
        assert forall|x: T| #[trigger] out@.contains(x) <==> all.contains(x) by {
            assert(out@.to_multiset().count(x) == all.to_multiset().count(x));
        }
    }
    out
}

/// Whether a key belongs to one value only.
pub open spec fn key_is_identity<T: SortKey>() -> bool {
    forall|x: T, y: T| #[trigger] x.key() == #[trigger] y.key() ==> x == y
}

/// Runs of equal neighbours shrink to one element.
pub open spec fn without_repeats<T>(s: Seq<T>) -> Seq<T>
    decreases s.len(),
{
    if s.len() <= 1 {
        s
    } else if s.last() == s[s.len() - 2] {
        without_repeats(s.drop_last())
    } else {
        without_repeats(s.drop_last()).push(s.last())
    }
}

/// Shrinking keeps the last element, and every value.
pub proof fn lemma_without_repeats<T>(s: Seq<T>)
    ensures
        s.len() > 0 ==> without_repeats(s).len() > 0 && without_repeats(s).last() == s.last(),
        forall|x: T| #[trigger] without_repeats(s).contains(x) <==> s.contains(x),
    decreases s.len(),
{
    if s.len() > 1 {
        let front = s.drop_last();
        lemma_without_repeats(front);
        assert(s =~= front.push(s.last()));
        let kept = without_repeats(front);
        assert forall|x: T| #[trigger] without_repeats(s).contains(x) <==> s.contains(x) by {
            if s.contains(x) && x != s.last() {
                let i = choose|i: int| 0 <= i < s.len() && s[i] == x;
                assert(front[i] == x);
                assert(kept.contains(x));
                let k = choose|k: int| 0 <= k < kept.len() && kept[k] == x;
                assert(kept.push(s.last())[k] == x);
            }
            if x == s.last() {
                assert(s[s.len() - 1] == x);
                assert(kept.push(s.last())[kept.len() as int] == x);
                assert(without_repeats(s).last() == x);
            }
            if without_repeats(s).contains(x) && x != s.last() {
                let i = choose|i: int|
                    0 <= i < without_repeats(s).len() && without_repeats(s)[i] == x;
                assert(i < kept.len() && kept[i] == x);
                assert(kept.contains(x));
                let k = choose|k: int| 0 <= k < front.len() && front[k] == x;
                assert(s[k] == x);
            }
        }
    }
}

/// An ascending sequence rises strictly once its repeats are gone.
pub proof fn lemma_without_repeats_ascending<T: SortKey>(s: Seq<T>)
    requires
        ascending(s),
        key_is_identity::<T>(),
    ensures
        strictly_ascending(without_repeats(s)),
    decreases s.len(),
{
    if s.len() > 1 {
        let front = s.drop_last();
        assert(ascending(front)) by {
            assert forall|i: int, j: int| 0 <= i < j < front.len() implies #[trigger] front[i].key()
                <= #[trigger] front[j].key() by {
                assert(s[i].key() <= s[j].key());
            }
        }
        lemma_without_repeats_ascending(front);
        lemma_without_repeats(front);
        let kept = without_repeats(front);
        if s.last() != s[s.len() - 2] {
            assert forall|i: int| 0 <= i < kept.len() implies #[trigger] kept[i].key()
                < s.last().key() by {
                assert(kept.contains(kept[i]));
                let k = choose|k: int| 0 <= k < front.len() && front[k] == kept[i];
                assert(s[k].key() <= s[s.len() - 2].key()) by {
                    if k < s.len() - 2 {
                    }
                }
                assert(s[s.len() - 2].key() <= s[s.len() - 1].key());
                assert(s[s.len() - 2].key() != s[s.len() - 1].key());
            }
        }
    }
}

/// Drops every element that equals the one before it.
pub fn dedup<T: SortKey + Copy>(v: &[T]) -> (out: Vec<T>)
    requires
        key_is_identity::<T>(),
    ensures
        out@ == without_repeats(v@),
{
    let mut out: Vec<T> = Vec::new();
    for i in 0..v.len()
        invariant
            key_is_identity::<T>(),
            out@ == without_repeats(v@.take(i as int)),
    {
        let ghost next = v@.take(i + 1);
        assert(next.drop_last() =~= v@.take(i as int));
        if i == 0 || v[i].key_of() != v[i - 1].key_of() {
            out.push(v[i]);
        }
        if i == 0 {
            assert(v@.take(0) =~= Seq::<T>::empty());
            assert(out@ =~= next);
        } else {
            assert(next.last() == v@[i as int] && next[next.len() - 2] == v@[i - 1]);
        }
    }
    assert(v@.take(v@.len() as int) =~= v@);
    out
}

/// The same values, each once, in ascending order.
pub fn sorted_distinct<T: SortKey + Copy>(v: Vec<T>) -> (out: Vec<T>)
    requires
        key_is_identity::<T>(),
    ensures
        strictly_ascending(out@),
        forall|x: T| #[trigger] out@.contains(x) <==> v@.contains(x),
{
    let sorted = sort_by_key(v);
    proof {
        lemma_without_repeats(sorted@);
        lemma_without_repeats_ascending(sorted@);
    }
    dedup(sorted.as_slice())
}

/// Shrinking keeps the first element, and leaves no two equal neighbours.
pub proof fn lemma_no_repeats<T>(s: Seq<T>)
    ensures
        s.len() > 0 ==> without_repeats(s).len() > 0 && without_repeats(s)[0] == s[0],
        forall|i: int, j: int|
            0 <= i && j == i + 1 && j < without_repeats(s).len() ==> #[trigger] without_repeats(s)[i]
                != #[trigger] without_repeats(s)[j],
    decreases s.len(),
{
    if s.len() > 1 {
        lemma_no_repeats(s.drop_last());
        lemma_without_repeats(s.drop_last());
    }
}

/// The same values in the order in which they first come up, each once.
pub open spec fn each_once<T>(s: Seq<T>) -> Seq<T>
    decreases s.len(),
{
    if s.len() == 0 {
        s
    } else if s.drop_last().contains(s.last()) {
        each_once(s.drop_last())
    } else {
        each_once(s.drop_last()).push(s.last())
    }
}

/// Keeping the first of each value keeps every value, and none twice.
pub proof fn lemma_each_once<T>(s: Seq<T>)
    ensures
        forall|x: T| #[trigger] each_once(s).contains(x) <==> s.contains(x),
        each_once(s).no_duplicates(),
    decreases s.len(),
{
    if s.len() > 0 {
        let front = s.drop_last();
        let kept = each_once(front);
        lemma_each_once(front);
        assert(s =~= front.push(s.last()));
        assert forall|x: T| #[trigger] each_once(s).contains(x) <==> s.contains(x) by {
            assert(kept.contains(x) <==> front.contains(x));
            if front.contains(x) {
                let k = choose|k: int| 0 <= k < front.len() && front[k] == x;
                assert(s[k] == x);
                let j = choose|j: int| 0 <= j < kept.len() && kept[j] == x;
                assert(each_once(s)[j] == x);
            }
            if s.contains(x) && x != s.last() {
                let k = choose|k: int| 0 <= k < s.len() && s[k] == x;
                assert(front[k] == x);
            }
            if each_once(s).contains(x) && x != s.last() {
                let j = choose|j: int| 0 <= j < each_once(s).len() && each_once(s)[j] == x;
                assert(kept[j] == x);
            }
            assert(s[s.len() - 1] == s.last());
            if !front.contains(s.last()) {
                assert(each_once(s)[kept.len() as int] == s.last());
            }
        }
        if !front.contains(s.last()) {
            assert(!kept.contains(s.last()));
            assert forall|i: int, j: int|
                0 <= i < each_once(s).len() && 0 <= j < each_once(s).len() && i != j implies each_once(
                s,
            )[i] != each_once(s)[j] by {
                if i < kept.len() {
                    assert(kept.contains(kept[i]));
                }
                if j < kept.len() {
                    assert(kept.contains(kept[j]));
                }
            }
        }
    }
}

/// What comes behind does not change what is kept of what came before.
pub proof fn lemma_each_once_prefix<T>(a: Seq<T>, b: Seq<T>)
    ensures
        each_once(a).is_prefix_of(each_once(a + b)),
    decreases b.len(),
{
    if b.len() == 0 {
        assert(a + b =~= a);
        assert(each_once(a) =~= each_once(a).take(each_once(a).len() as int));
    } else {
        lemma_each_once_prefix(a, b.drop_last());
        assert((a + b).drop_last() =~= a + b.drop_last());
        let less = each_once(a + b.drop_last());
        let more = each_once(a + b);
        assert(more.take(each_once(a).len() as int) =~= less.take(each_once(a).len() as int));
    }
}

fn holds_value<T: SortKey>(v: &[T], x: &T) -> (b: bool)
    requires
        key_is_identity::<T>(),
    ensures
        b == v@.contains(*x),
{
    for i in 0..v.len()
        invariant
            key_is_identity::<T>(),
            forall|k: int| 0 <= k < i ==> v@[k] != *x,
    {
        if v[i].key_of() == x.key_of() {
            assert(v@[i as int] == *x);
            return true;
        }
        assert(v@[i as int].key() != x.key());
    }
    false
}

/// Drops every element that came up before.
pub fn distinct<T: SortKey + Copy>(v: &[T]) -> (out: Vec<T>)
    requires
        key_is_identity::<T>(),
    ensures
        out@ == each_once(v@),
{
    let mut out: Vec<T> = Vec::new();
    for i in 0..v.len()
        invariant
            key_is_identity::<T>(),
            out@ == each_once(v@.take(i as int)),
    {
        assert(v@.take(i + 1).drop_last() =~= v@.take(i as int));
        proof {
            lemma_each_once(v@.take(i as int));
        }
        if !holds_value(out.as_slice(), &v[i]) {
            out.push(v[i]);
        }
    }
    assert(v@.take(v@.len() as int) =~= v@);
    out
}

/// Ascending means what it says of the numbers themselves: ports by their
/// numbers, addresses by theirs, and labeled ports and endpoints by the port.
pub proof fn law_orders(
    ports: Seq<u16>,
    addresses: Seq<Ipv4Addr>,
    labeled: Seq<(u16, String)>,
    endpoints: Seq<(Ipv4Addr, u16)>,
    i: int,
    j: int,
)
    requires
        0 <= i < j,
    ensures
        ascending(ports) && j < ports.len() ==> ports[i] <= ports[j],
        ascending(addresses) && j < addresses.len() ==> addresses[i].bits <= addresses[j].bits,
        strictly_ascending(addresses) && j < addresses.len() ==> addresses[i].bits
            < addresses[j].bits,
        ascending(labeled) && j < labeled.len() ==> labeled[i].0 <= labeled[j].0,
        ascending(endpoints) && j < endpoints.len() ==> endpoints[i].1 <= endpoints[j].1,
{
    if ascending(ports) && j < ports.len() {
        assert(ports[i].key() <= ports[j].key());
    }
    if ascending(addresses) && j < addresses.len() {
        assert(addresses[i].key() <= addresses[j].key());
    }
    if strictly_ascending(addresses) && j < addresses.len() {
        assert(addresses[i].key() < addresses[j].key());
    }
    if ascending(labeled) && j < labeled.len() {
        assert(labeled[i].key() <= labeled[j].key());
    }
    if ascending(endpoints) && j < endpoints.len() {
        assert(endpoints[i].key() <= endpoints[j].key());
    }
}

/// A sequence without equal neighbours stays as it is.
pub proof fn law_no_repeats_no_change<T>(s: Seq<T>)
    requires
        forall|i: int, j: int| 0 <= i && j == i + 1 && j < s.len() ==> #[trigger] s[i]
            != #[trigger] s[j],
    ensures
        without_repeats(s) == s,
    decreases s.len(),
{
    if s.len() > 1 {
        let front = s.drop_last();
        let n = s.len() as int;
        assert(s[n - 2] != s[n - 1]);
        assert forall|i: int, j: int| 0 <= i && j == i + 1 && j < front.len() implies
            #[trigger] front[i] != #[trigger] front[j] by {
            assert(s[i] != s[j]);
        }
        law_no_repeats_no_change(front);
        assert(without_repeats(s) =~= s);
    }
}

/// An element that stands twice in a row counts once.
pub proof fn law_repeats_vanish<T>(a: Seq<T>, x: T, b: Seq<T>)
    ensures
        without_repeats(a + seq![x, x] + b) == without_repeats(a + seq![x] + b),
    decreases b.len(),
{
    let twice = a + seq![x, x] + b;
    let once = a + seq![x] + b;
    if b.len() == 0 {
        assert(twice.drop_last() =~= once);
        assert(twice.last() == x && twice[twice.len() - 2] == x);
    } else {
        let front = b.drop_last();
        law_repeats_vanish(a, x, front);
        assert(twice.drop_last() =~= a + seq![x, x] + front);
        assert(once.drop_last() =~= a + seq![x] + front);
        assert(twice.last() == b.last() && once.last() == b.last());
        assert(twice[twice.len() - 2] == once[once.len() - 2]);
    }
}

/// A value that came up before is left out, wherever it comes up again, and
/// values that come up once stay as they are.
pub proof fn law_first_counts<T>(a: Seq<T>, x: T, b: Seq<T>)
    ensures
        a.contains(x) ==> each_once(a + seq![x] + b) == each_once(a + b),
        a.no_duplicates() ==> each_once(a) == a,
    decreases a.len() + b.len(),
{
    if a.no_duplicates() && a.len() > 0 {
        let front = a.drop_last();
        law_first_counts(front, x, Seq::empty());
        assert(front.no_duplicates());
        if front.contains(a.last()) {
            let k = choose|k: int| 0 <= k < front.len() && front[k] == a.last();
            assert(a[k] == a[a.len() - 1]);
        }
        assert(each_once(a) =~= a);
    }
    if a.contains(x) {
        let with = a + seq![x] + b;
        let without = a + b;
        if b.len() == 0 {
            assert(with.drop_last() =~= a);
            assert(without =~= a);
        } else {
            let front = b.drop_last();
            let y = b.last();
            law_first_counts(a, x, front);
            assert(with.drop_last() =~= a + seq![x] + front);
            assert(without.drop_last() =~= a + front);
            let kx = choose|k: int| 0 <= k < a.len() && a[k] == x;
            if with.drop_last().contains(y) {
                let k = choose|k: int|
                    0 <= k < with.drop_last().len() && with.drop_last()[k] == y;
                if k < a.len() {
                    assert(without.drop_last()[k] == y);
                } else if k == a.len() {
                    assert(without.drop_last()[kx] == y);
                } else {
                    assert(without.drop_last()[k - 1] == y);
                }
            }
            if without.drop_last().contains(y) {
                let k = choose|k: int|
                    0 <= k < without.drop_last().len() && without.drop_last()[k] == y;
                if k < a.len() {
                    assert(with.drop_last()[k] == y);
                } else {
                    assert(with.drop_last()[k + 1] == y);
                }
            }
        }
    }
}

} // verus!
