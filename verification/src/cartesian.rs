use vstd::prelude::*;

verus! {

/// For each tuple of `rest`, in order, the tuples that put each value of `col`, in order,
/// in front of it.
pub open spec fn prefix_each<T>(col: Seq<T>, rest: Seq<Seq<T>>) -> Seq<Seq<T>>
    decreases rest.len(),
{
    if rest.len() == 0 {
        seq![]
    } else {
        prefix_each(col, rest.drop_last()) + col.map_values(|a: T| seq![a] + rest.last())
    }
}

/// Every tuple that picks one value from each column, the first column changing fastest.
pub open spec fn cartesian_spec<T>(cols: Seq<Seq<T>>) -> Seq<Seq<T>>
    decreases cols.len(),
{
    if cols.len() == 0 {
        seq![seq![]]
    } else {
        prefix_each(cols[0], cartesian_spec(cols.drop_first()))
    }
}

/// The product of the column lengths.
pub open spec fn product_len<T>(cols: Seq<Seq<T>>) -> nat
    decreases cols.len(),
{
    if cols.len() == 0 {
        1
    } else {
        cols[0].len() * product_len(cols.drop_first())
    }
}

pub proof fn lemma_prefix_each_len<T>(col: Seq<T>, rest: Seq<Seq<T>>)
    ensures
        prefix_each(col, rest).len() == col.len() * rest.len(),
    decreases rest.len(),
{
    if rest.len() > 0 {
        lemma_prefix_each_len(col, rest.drop_last());
        assert(col.len() * rest.len() == col.len() * (rest.len() - 1) + col.len()) by (nonlinear_arith);
    }
}

/// The number of tuples is the product of the column lengths.
pub proof fn lemma_cartesian_len<T>(cols: Seq<Seq<T>>)
    ensures
        cartesian_spec(cols).len() == product_len(cols),
    decreases cols.len(),
{
    if cols.len() > 0 {
        lemma_cartesian_len(cols.drop_first());
        lemma_prefix_each_len(cols[0], cartesian_spec(cols.drop_first()));
    }
}

pub open spec fn columns<T>(input: Seq<Vec<T>>) -> Seq<Seq<T>> {
    input.map_values(|v: Vec<T>| v@)
}

fn prefix_each_exec<T: Copy>(col: &Vec<T>, rest: &Vec<Vec<T>>) -> (out: Vec<Vec<T>>)
    ensures
        columns(out@) == prefix_each(col@, columns(rest@)),
{
    let ghost rs = columns(rest@);
    let mut out: Vec<Vec<T>> = Vec::new();
    let mut j: usize = 0;
    while j < rest.len()
        invariant
            0 <= j <= rest@.len(),
            rs == columns(rest@),
            columns(out@) == prefix_each(col@, rs.take(j as int)),
        decreases rest@.len() - j,
    {
        let r = &rest[j];
        let mut t: usize = 0;
        let ghost base = out@;
        while t < col.len()
            invariant
                0 <= t <= col@.len(),
                j < rest@.len(),
                *r == rest@[j as int],
                rs == columns(rest@),
                columns(base) == prefix_each(col@, rs.take(j as int)),
                columns(out@) == columns(base) + col@.take(t as int).map_values(
                    |a: T| seq![a] + rs[j as int],
                ),
            decreases col@.len() - t,
        {
            let mut tuple: Vec<T> = Vec::new();
            tuple.push(col[t]);
            let mut k: usize = 0;
            while k < r.len()
                invariant
                    0 <= k <= r@.len(),
                    tuple@ == seq![col@[t as int]] + r@.take(k as int),
                decreases r@.len() - k,
            {
                tuple.push(r[k]);
                assert(r@.take(k + 1) =~= r@.take(k as int).push(r@[k as int]));
                k = k + 1;
            }
            assert(r@.take(r@.len() as int) =~= r@);
            let ghost before = out@;
            out.push(tuple);
            assert(columns(out@) =~= columns(before).push(tuple@));
            assert(col@.take(t + 1).map_values(|a: T| seq![a] + rs[j as int]) =~= col@.take(
                t as int,
            ).map_values(|a: T| seq![a] + rs[j as int]).push(seq![col@[t as int]] + rs[j as int]));
            t = t + 1;
        }
        assert(col@.take(col@.len() as int) =~= col@);
        assert(rs.take(j + 1).drop_last() =~= rs.take(j as int));
        assert(rs.take(j + 1).last() == rs[j as int]);
        j = j + 1;
    }
    assert(rs.take(rest@.len() as int) =~= rs);
    out
}

/// Every tuple that picks one value from each vector of `input`, the first vector changing
/// fastest: `{1,2} x {3} x {4,5}` gives `(1,3,4), (2,3,4), (1,3,5), (2,3,5)`.
pub fn cartesian<T: Copy>(input: &[Vec<T>]) -> (r: Vec<Vec<T>>)
    requires
        forall|i: int| 0 <= i < input@.len() ==> #[trigger] input@[i]@.len() > 0,
    ensures
        columns(r@) == cartesian_spec(columns(input@)),
        r@.len() == product_len(columns(input@)),
{
    let ghost cols = columns(input@);
    let mut acc: Vec<Vec<T>> = Vec::new();
    acc.push(Vec::new());
    assert(columns(acc@) =~= seq![seq![]]);
    assert(cols.subrange(input@.len() as int, input@.len() as int) =~= Seq::<Seq<T>>::empty());
    let mut i: usize = input.len();
    while i > 0
        invariant
            0 <= i <= input@.len(),
            cols == columns(input@),
            columns(acc@) == cartesian_spec(cols.subrange(i as int, input@.len() as int)),
        decreases i,
    {
        i = i - 1;
        acc = prefix_each_exec(&input[i], &acc);
        let ghost sub = cols.subrange(i as int, input@.len() as int);
        assert(sub.drop_first() =~= cols.subrange(i + 1, input@.len() as int));
        assert(sub[0] == input@[i as int]@);
    }
    assert(cols.subrange(0, input@.len() as int) =~= cols);
    proof {
        lemma_cartesian_len(cols);
    }
    acc
}

} // verus!
