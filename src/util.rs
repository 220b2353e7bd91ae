use vstd::prelude::*;
use vstd::string::StringExecFns;

verus! {

/// Each tuple of `p`, extended by each of the first `k` items of `l` in turn:
/// all tuples with item 0, then all with item 1, and so on.
pub open spec fn extend_all<T>(p: Seq<Seq<T>>, l: Seq<T>, k: int) -> Seq<Seq<T>>
    decreases k,
{
    if k <= 0 {
        Seq::empty()
    } else {
        extend_all(p, l, k - 1) + p.map_values(|t: Seq<T>| t.push(l[k - 1]))
    }
}

/// Every way to pick one item from each of the first `m` lists; earlier lists vary fastest.
pub open spec fn product_upto<T>(lists: Seq<Seq<T>>, m: int) -> Seq<Seq<T>>
    decreases m,
{
    if m <= 0 {
        seq![Seq::empty()]
    } else {
        let l = lists[m - 1];
        extend_all(product_upto(lists, m - 1), l, l.len() as int)
    }
}

/// Every way to pick one item from each list.
pub open spec fn product<T>(lists: Seq<Seq<T>>) -> Seq<Seq<T>> {
    product_upto(lists, lists.len() as int)
}

proof fn lemma_extend_all_members<T>(p: Seq<Seq<T>>, l: Seq<T>, k: int, m: int)
    requires
        0 <= k <= l.len(),
        forall|j: int| 0 <= j < p.len() ==> (#[trigger] p[j]).len() == m,
    ensures
        forall|j: int| 0 <= j < extend_all(p, l, k).len() ==> {
            let t = #[trigger] extend_all(p, l, k)[j];
            &&& t.len() == m + 1
            &&& l.contains(t[m])
            &&& exists|q: int| 0 <= q < p.len() && t.drop_last() == #[trigger] p[q]
        },
    decreases k,
{
    if k > 0 {
        lemma_extend_all_members(p, l, k - 1, m);
        let prev = extend_all(p, l, k - 1);
        let add = p.map_values(|t: Seq<T>| t.push(l[k - 1]));
        assert(extend_all(p, l, k) == prev + add);
        assert forall|j: int| 0 <= j < extend_all(p, l, k).len() implies {
            let t = #[trigger] extend_all(p, l, k)[j];
            &&& t.len() == m + 1
            &&& l.contains(t[m])
            &&& exists|q: int| 0 <= q < p.len() && t.drop_last() == #[trigger] p[q]
        } by {
            let t = extend_all(p, l, k)[j];
            if j < prev.len() {
                assert(t == prev[j]);
            } else {
                let q = j - prev.len();
                assert(t == p[q].push(l[k - 1]));
                assert(t[m] == l[k - 1]);
                assert(t.drop_last() =~= p[q]);
            }
        }
    }
}

/// Every tuple of the product picks, at each position, an item of that position's list.
pub proof fn lemma_product_members<T>(lists: Seq<Seq<T>>, m: int)
    requires
        0 <= m <= lists.len(),
    ensures
        forall|j: int| 0 <= j < product_upto(lists, m).len() ==> {
            let t = #[trigger] product_upto(lists, m)[j];
            &&& t.len() == m
            &&& forall|i: int| 0 <= i < m ==> lists[i].contains(#[trigger] t[i])
        },
    decreases m,
{
    if m > 0 {
        lemma_product_members(lists, m - 1);
        let p = product_upto(lists, m - 1);
        let l = lists[m - 1];
        lemma_extend_all_members(p, l, l.len() as int, m - 1);
        assert forall|j: int| 0 <= j < product_upto(lists, m).len() implies {
            let t = #[trigger] product_upto(lists, m)[j];
            &&& t.len() == m
            &&& forall|i: int| 0 <= i < m ==> lists[i].contains(#[trigger] t[i])
        } by {
            let t = product_upto(lists, m)[j];
            let q = choose|q: int| 0 <= q < p.len() && t.drop_last() == #[trigger] p[q];
            assert forall|i: int| 0 <= i < m implies lists[i].contains(#[trigger] t[i]) by {
                if i < m - 1 {
                    assert(t[i] == p[q][i]);
                }
            }
        }
    }
}

/// A copy of `prev` with `item` appended.
fn copy_push<T: Copy>(prev: &Vec<T>, item: T) -> (r: Vec<T>)
    ensures
        r@ == prev@.push(item),
{
    let mut r: Vec<T> = Vec::new();
    let mut i: usize = 0;
    while i < prev.len()
        invariant
            i <= prev@.len(),
            r@ == prev@.subrange(0, i as int),
        decreases prev@.len() - i,
    {
        r.push(prev[i]);
        i += 1;
    }
    r.push(item);
    assert(r@ =~= prev@.push(item));
    r
}

/// Every way to pick one item from each list, earlier lists varying fastest.
pub fn cartesian_product<T: Copy>(lists: &[Vec<T>]) -> (r: Vec<Vec<T>>)
    ensures
        r@.map_values(|v: Vec<T>| v@) == product(lists@.map_values(|l: Vec<T>| l@)),
{
    let ghost ls = lists@.map_values(|l: Vec<T>| l@);
    let mut product: Vec<Vec<T>> = Vec::new();
    product.push(Vec::new());
    assert(product@.map_values(|v: Vec<T>| v@) =~= product_upto(ls, 0));
    let mut m: usize = 0;
    while m < lists.len()
        invariant
            m <= lists@.len(),
            ls == lists@.map_values(|l: Vec<T>| l@),
            product@.map_values(|v: Vec<T>| v@) == product_upto(ls, m as int),
        decreases lists@.len() - m,
    {
        let list = &lists[m];
        assert(ls[m as int] == list@);
        let ghost p = product_upto(ls, m as int);
        let mut next: Vec<Vec<T>> = Vec::new();
        let mut k: usize = 0;
        while k < list.len()
            invariant
                k <= list@.len(),
                p == product@.map_values(|v: Vec<T>| v@),
                next@.map_values(|v: Vec<T>| v@) == extend_all(p, list@, k as int),
            decreases list@.len() - k,
        {
            let item = list[k];
            let mut j: usize = 0;
            let ghost base = next@.map_values(|v: Vec<T>| v@);
            while j < product.len()
                invariant
                    j <= product@.len(),
                    k < list@.len(),
                    item == list@[k as int],
                    p == product@.map_values(|v: Vec<T>| v@),
                    base == extend_all(p, list@, k as int),
                    next@.map_values(|v: Vec<T>| v@) == base + p.map_values(|t: Seq<T>| t.push(item)).subrange(0, j as int),
                decreases product@.len() - j,
            {
                let t = copy_push(&product[j], item);
                let ghost before = next@.map_values(|v: Vec<T>| v@);
                next.push(t);
                assert(next@.map_values(|v: Vec<T>| v@) =~= before.push(t@));
                assert(p.map_values(|t: Seq<T>| t.push(item)).subrange(0, j as int + 1) =~= p.map_values(|t: Seq<T>| t.push(item)).subrange(0, j as int).push(t@));
                j += 1;
            }
            assert(p.map_values(|t: Seq<T>| t.push(item)).subrange(0, j as int) =~= p.map_values(|t: Seq<T>| t.push(item)));
            k += 1;
        }
        product = next;
        m += 1;
    }
    product
}

/// The decimal digit character of `d`, below ten.
pub open spec fn digit_char(d: int) -> char {
    if d == 0 { '0' } else if d == 1 { '1' } else if d == 2 { '2' } else if d == 3 { '3' } else if d == 4 { '4' }
    else if d == 5 { '5' } else if d == 6 { '6' } else if d == 7 { '7' } else if d == 8 { '8' } else { '9' }
}

/// Decimal digits of `n`, below a thousand, without leading zeros.
pub open spec fn small_digits(n: int) -> Seq<char> {
    if n < 10 {
        seq![digit_char(n)]
    } else if n < 100 {
        seq![digit_char(n / 10), digit_char(n % 10)]
    } else {
        seq![digit_char(n / 100), digit_char((n / 10) % 10), digit_char(n % 10)]
    }
}

/// Decimal digits of `n` with a comma between groups of three, counted from the right.
pub open spec fn thousands(n: nat) -> Seq<char>
    decreases n,
{
    if n < 1000 {
        small_digits(n as int)
    } else {
        let m = (n % 1000) as int;
        thousands(n / 1000) + seq![',', digit_char(m / 100), digit_char((m / 10) % 10), digit_char(m % 10)]
    }
}

/// The text of digit `d`.
fn digit_str(d: u128) -> (r: &'static str)
    requires
        d < 10,
    ensures
        r@ == seq![digit_char(d as int)],
{
    if d == 0 {
        proof { reveal_strlit("0"); }
        "0"
    } else if d == 1 {
        proof { reveal_strlit("1"); }
        "1"
    } else if d == 2 {
        proof { reveal_strlit("2"); }
        "2"
    } else if d == 3 {
        proof { reveal_strlit("3"); }
        "3"
    } else if d == 4 {
        proof { reveal_strlit("4"); }
        "4"
    } else if d == 5 {
        proof { reveal_strlit("5"); }
        "5"
    } else if d == 6 {
        proof { reveal_strlit("6"); }
        "6"
    } else if d == 7 {
        proof { reveal_strlit("7"); }
        "7"
    } else if d == 8 {
        proof { reveal_strlit("8"); }
        "8"
    } else {
        proof { reveal_strlit("9"); }
        "9"
    }
}

/// `n` in decimal with commas between groups of three digits: `1,234,567`.
pub fn fmt_int(n: u128) -> (r: String)
    ensures
        r@ == thousands(n as nat),
    decreases n,
{
    if n < 1000 {
        let mut r = String::new();
        if n >= 100 {
            r.append(digit_str(n / 100));
        }
        if n >= 10 {
            r.append(digit_str((n / 10) % 10));
        }
        r.append(digit_str(n % 10));
        assert(r@ =~= small_digits(n as int));
        r
    } else {
        let m = n % 1000;
        let mut r = fmt_int(n / 1000);
        proof { reveal_strlit(","); }
        r.append(",");
        r.append(digit_str(m / 100));
        r.append(digit_str((m / 10) % 10));
        r.append(digit_str(m % 10));
        assert(r@ =~= thousands(n as nat));
        r
    }
}

} // verus!
