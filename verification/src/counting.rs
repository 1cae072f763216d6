//! How many placements there are.
use vstd::prelude::*;
use vstd::arithmetic::power::pow;
use vstd::arithmetic::div_mod::lemma_fundamental_div_mod_converse;
use vstd::set_lib::{set_int_range, lemma_int_range, lemma_map_size, lemma_len_subset};

verus! {

/// Placements of `n` robots on a board of `cells` cells.
pub open spec fn in_range(s: Seq<int>, n: nat, cells: int) -> bool {
    &&& s.len() == n
    &&& forall|i: int| 0 <= i < s.len() ==> 0 <= #[trigger] s[i] < cells
}

/// A placement read as a number in base `cells`, robot 0 as the lowest digit.
pub open spec fn encode(s: Seq<int>, cells: int) -> int
    decreases s.len(),
{
    if s.len() == 0 {
        0
    } else {
        s[0] + cells * encode(s.drop_first(), cells)
    }
}

/// The number a placement is encoded as lies below `cells^n`.
proof fn lemma_encode_range(s: Seq<int>, cells: int)
    requires
        cells >= 1,
        in_range(s, s.len(), cells),
    ensures
        0 <= encode(s, cells) < pow(cells, s.len()),
    decreases s.len(),
{
    vstd::arithmetic::power::lemma_pow0(cells);
    if s.len() > 0 {
        let t = s.drop_first();
        assert(in_range(t, t.len(), cells));
        lemma_encode_range(t, cells);
        vstd::arithmetic::power::lemma_pow_adds(cells, 1, t.len());
        vstd::arithmetic::power::lemma_pow1(cells);
        let e = encode(t, cells);
        let p = pow(cells, t.len());
        assert(s[0] + cells * e < cells * p) by (nonlinear_arith)
            requires
                0 <= s[0] < cells,
                0 <= e < p,
                cells >= 1,
        ;
        assert(0 <= cells * e) by (nonlinear_arith)
            requires
                0 <= e,
                cells >= 1,
        ;
        assert(pow(cells, s.len()) == cells * p) by {
            assert(s.len() == 1 + t.len());
        }
    }
}

/// Distinct placements get distinct numbers.
proof fn lemma_encode_injective(s: Seq<int>, t: Seq<int>, cells: int)
    requires
        cells >= 1,
        in_range(s, s.len(), cells),
        in_range(t, s.len(), cells),
        encode(s, cells) == encode(t, cells),
    ensures
        s == t,
    decreases s.len(),
{
    if s.len() > 0 {
        let s1 = s.drop_first();
        let t1 = t.drop_first();
        assert(in_range(s1, s1.len(), cells));
        assert(in_range(t1, s1.len(), cells));
        lemma_encode_range(s1, cells);
        lemma_encode_range(t1, cells);
        let x = encode(s, cells);
        assert(x == encode(s1, cells) * cells + s[0]) by (nonlinear_arith)
            requires
                x == s[0] + cells * encode(s1, cells),
        ;
        assert(x == encode(t1, cells) * cells + t[0]) by (nonlinear_arith)
            requires
                x == t[0] + cells * encode(t1, cells),
        ;
        lemma_fundamental_div_mod_converse(x, cells, encode(s1, cells), s[0]);
        lemma_fundamental_div_mod_converse(x, cells, encode(t1, cells), t[0]);
        lemma_encode_injective(s1, t1, cells);
        assert(s =~= seq![s[0]] + s1);
        assert(t =~= seq![t[0]] + t1);
    }
}

/// A set of placements of `n` robots on `cells` cells has at most
/// `cells^n` members.
pub proof fn lemma_placements_bound(set: Set<Seq<int>>, n: nat, cells: int)
    requires
        cells >= 1,
        set.finite(),
        forall|s: Seq<int>| #[trigger] set.contains(s) ==> in_range(s, n, cells),
    ensures
        set.len() <= pow(cells, n),
{
    let f = |s: Seq<int>| encode(s, cells);
    let image = set.map(f);
    assert(vstd::relations::injective_on(f, set)) by {
        assert forall|a: Seq<int>, b: Seq<int>|
            set.contains(a) && set.contains(b) && #[trigger] f(a) == #[trigger] f(b) implies a == b by {
            lemma_encode_injective(a, b, cells);
        }
    }
    lemma_map_size(set, image, f);
    vstd::arithmetic::power::lemma_pow_positive(cells, n);
    let range = set_int_range(0, pow(cells, n));
    lemma_int_range(0, pow(cells, n));
    assert(image.subset_of(range)) by {
        assert forall|x: int| image.contains(x) implies range.contains(x) by {
            let s = choose|s: Seq<int>| set.contains(s) && f(s) == x;
            lemma_encode_range(s, cells);
        }
    }
    lemma_len_subset(image, range);
}

} // verus!
