use vstd::prelude::*;
use vstd::string::StringExecFns;
use crate::text::decimal;
use crate::text::decimal_string;
use crate::text::push_char;

verus! {

/// The number in row `n`, place `k` of Pascal's triangle, both counted from
/// zero; zero outside the triangle.
pub open spec fn binomial(n: nat, k: nat) -> nat
    decreases n,
{
    if k == 0 {
        1
    } else if n == 0 {
        0
    } else {
        binomial((n - 1) as nat, (k - 1) as nat) + binomial((n - 1) as nat, k)
    }
}

/// Row `r` of the triangle, counted from zero.
pub open spec fn pascal_row(r: nat) -> Seq<usize> {
    Seq::new(r + 1, |k: int| binomial(r, k as nat) as usize)
}

/// The first `n` rows hold machine integers only.
pub open spec fn rows_fit(n: nat) -> bool {
    forall|r: nat, k: nat| r < n && k <= r ==> #[trigger] binomial(r, k) <= usize::MAX
}

/// The row below `last_row`: a one, the sums of neighbours, a one.
pub open spec fn row_below(last_row: Seq<usize>) -> Seq<int> {
    Seq::new(
        last_row.len() + 1,
        |k: int|
            if k == 0 || k == last_row.len() {
                1
            } else {
                last_row[k - 1] + last_row[k]
            },
    )
}

/// `count` dots.
pub open spec fn dots(count: nat) -> Seq<char> {
    Seq::new(count, |i: int| '.')
}

/// The first `upto` numbers of `row`, written in decimal and joined by
/// dots.
pub open spec fn numbers_text(row: Seq<usize>, upto: nat) -> Seq<char>
    recommends
        1 <= upto <= row.len(),
    decreases upto,
{
    if upto <= 1 {
        decimal(row[0] as nat)
    } else {
        numbers_text(row, (upto - 1) as nat).push('.') + decimal(row[upto - 1] as nat)
    }
}

/// The first `upto` lines of a triangle of `n` rows: a line feed, then each
/// row indented by dots so that the last row starts at the margin, with a
/// line feed between rows.
pub open spec fn lines_text(n: nat, upto: nat) -> Seq<char>
    recommends
        upto <= n,
    decreases upto,
{
    if upto == 0 {
        seq!['\n']
    } else {
        let r = (upto - 1) as nat;
        let line = dots((n - r - 1) as nat) + numbers_text(pascal_row(r), r + 1);
        lines_text(n, r) + line + if upto < n {
            seq!['\n']
        } else {
            Seq::<char>::empty()
        }
    }
}

/// The edges of the triangle are ones.
pub proof fn lemma_binomial_edge(n: nat)
    ensures
        binomial(n, 0) == 1,
        binomial(n, n) == 1,
        forall|k: nat| k > n ==> #[trigger] binomial(n, k) == 0,
    decreases n,
{
    if n > 0 {
        lemma_binomial_edge((n - 1) as nat);
        assert forall|k: nat| k > n implies #[trigger] binomial(n, k) == 0 by {
            assert(binomial((n - 1) as nat, (k - 1) as nat) == 0);
            assert(binomial((n - 1) as nat, k) == 0);
        }
        assert(binomial((n - 1) as nat, n) == 0);
    } else {
        assert forall|k: nat| k > n implies #[trigger] binomial(n, k) == 0 by {}
    }
}

/// The triangle of `n` rows as text: see `lines_text`.
pub fn pascal_triangle(n: usize) -> (r: String)
    requires
        rows_fit(n as nat),
    ensures
        r@ == lines_text(n as nat, n as nat),
{
    let tri = triangle(n);
    let mut result = String::new();
    push_char(&mut result, '\n');
    assert(result@ =~= lines_text(n as nat, 0));
    let mut r: usize = 0;
    while r < tri.len()
        invariant
            r <= n,
            tri@.len() == n,
            forall|i: int| 0 <= i < n ==> (#[trigger] tri@[i])@ == pascal_row(i as nat),
            result@ == lines_text(n as nat, r as nat),
        decreases n - r,
    {
        let row = &tri[r];
        let ghost before = result@;
        let mut d: usize = 0;
        while d < n - r - 1
            invariant
                r < n,
                d <= n - r - 1,
                result@ == before + dots(d as nat),
            decreases n - r - 1 - d,
        {
            push_char(&mut result, '.');
            d += 1;
            assert(result@ =~= before + dots(d as nat));
        }
        let ghost indented = result@;
        assert(row@ == pascal_row(r as nat));
        result.append(decimal_string(row[0]).as_str());
        let mut k: usize = 1;
        while k < row.len()
            invariant
                1 <= k <= row@.len(),
                row@.len() == r + 1,
                result@ == indented + numbers_text(row@, k as nat),
            decreases row@.len() - k,
        {
            push_char(&mut result, '.');
            result.append(decimal_string(row[k]).as_str());
            k += 1;
            assert(result@ =~= indented + numbers_text(row@, k as nat));
        }
        if r < tri.len() - 1 {
            push_char(&mut result, '\n');
        }
        r += 1;
        assert(result@ =~= lines_text(n as nat, r as nat));
    }
    result
}

/// The first `n` rows of Pascal's triangle.
pub fn triangle(n: usize) -> (r: Vec<Vec<usize>>)
    requires
        rows_fit(n as nat),
    ensures
        r@.len() == n,
        forall|i: int| 0 <= i < n ==> (#[trigger] r@[i])@ == pascal_row(i as nat),
    decreases n,
{
    if n == 0 {
        Vec::new()
    } else if n == 1 {
        let mut first: Vec<usize> = Vec::new();
        first.push(1);
        let mut rows: Vec<Vec<usize>> = Vec::new();
        rows.push(first);
        assert(rows@[0]@ =~= pascal_row(0));
        rows
    } else {
        let mut previous = triangle(n - 1);
        let ghost rows_before = previous@;
        let row = {
            let last = &previous[previous.len() - 1];
            proof {
                let above = (n - 2) as nat;
                assert(last@ == pascal_row(above));
                assert forall|i: int| 0 <= i < last@.len() - 1 implies (#[trigger] last@[i])
                    + last@[i + 1] <= usize::MAX by {
                    assert(binomial(above, i as nat) <= usize::MAX);
                    assert(binomial(above, (i + 1) as nat) <= usize::MAX);
                    assert(binomial((n - 1) as nat, (i + 1) as nat) <= usize::MAX);
                }
            }
            make_row(last)
        };
        proof {
            let above = (n - 2) as nat;
            let here = (n - 1) as nat;
            lemma_binomial_edge(here);
            assert(row@ =~= pascal_row(here)) by {
                assert forall|k: int| 0 <= k < row@.len() implies row@[k] == pascal_row(here)[k] by {
                    assert(binomial(here, k as nat) <= usize::MAX);
                    if 0 < k < here {
                        assert(binomial(above, (k - 1) as nat) <= usize::MAX);
                        assert(binomial(above, k as nat) <= usize::MAX);
                        assert(rows_before[above as int]@[k - 1] == binomial(
                            above,
                            (k - 1) as nat,
                        ));
                        assert(rows_before[above as int]@[k] == binomial(above, k as nat));
                    }
                }
            }
        }
        previous.push(row);
        previous
    }
}

/// The row below `last_row`.
pub fn make_row(last_row: &Vec<usize>) -> (r: Vec<usize>)
    requires
        last_row@.len() > 0,
        forall|i: int|
            0 <= i < last_row@.len() - 1 ==> (#[trigger] last_row@[i]) + last_row@[i + 1]
                <= usize::MAX,
    ensures
        r@.len() == last_row@.len() + 1,
        forall|k: int| 0 <= k < r@.len() ==> #[trigger] r@[k] == row_below(last_row@)[k],
{
    let mut row: Vec<usize> = Vec::new();
    row.push(1);
    let mut i: usize = 0;
    while i < last_row.len() - 1
        invariant
            last_row@.len() > 0,
            i <= last_row@.len() - 1,
            row@.len() == i + 1,
            forall|k: int| 0 <= k < row@.len() ==> #[trigger] row@[k] == row_below(last_row@)[k],
            forall|j: int|
                0 <= j < last_row@.len() - 1 ==> (#[trigger] last_row@[j]) + last_row@[j + 1]
                    <= usize::MAX,
        decreases last_row@.len() - 1 - i,
    {
        row.push(last_row[i] + last_row[i + 1]);
        i += 1;
    }
    row.push(1);
    row
}

} // verus!
