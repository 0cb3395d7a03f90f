//! The canonical JSON encoders of the verifier-fixture emitter, and the
//! plain data of its argument vector and hash suite.
use vstd::prelude::*;
use crate::text::{decimal, decimal_spec};

verus! {

/// Challenge elements live in the degree-4 extension of BabyBear.
pub const EXT_DEGREE: usize = 4;

/// Digest words per commitment node of the BabyBear suite.
pub const BABYBEAR_DIGEST_ELEMS: usize = 8;

/// Already-rendered elements separated by commas.
pub open spec fn join_items(items: Seq<Seq<char>>) -> Seq<char>
    decreases items.len(),
{
    if items.len() == 0 {
        seq![]
    } else if items.len() == 1 {
        items[0]
    } else {
        join_items(items.drop_last()) + seq![','] + items.last()
    }
}

/// A JSON array of already-rendered elements: `[e0,e1,…]`.
pub open spec fn json_array(items: Seq<Seq<char>>) -> Seq<char> {
    seq!['['] + join_items(items) + seq![']']
}

/// The texts of a list of strings.
pub open spec fn texts(vals: Seq<String>) -> Seq<Seq<char>> {
    vals.map_values(|v: String| v@)
}

/// The decimal renderings of a list of numbers.
pub open spec fn decimals(vals: Seq<u32>) -> Seq<Seq<char>> {
    vals.map_values(|v: u32| decimal_spec(v as nat))
}

/// A JSON array of already-rendered elements.
pub fn arr(vals: Vec<String>) -> (r: String)
    ensures
        r@ == json_array(texts(vals@)),
{
    proof {
        reveal_strlit("[");
        reveal_strlit("]");
    }
    let ghost items = texts(vals@);
    let mut s = String::from_str("[");
    let mut i: usize = 0;
    while i < vals.len()
        invariant
            i <= vals@.len(),
            items == texts(vals@),
            s@ == seq!['['] + join_items(items.take(i as int)),
        decreases vals@.len() - i,
    {
        let ghost before = s@;
        proof {
            reveal_strlit(",");
        }
        if i > 0 {
            s.append(",");
        }
        let ghost mid = s@;
        s.append(vals[i].as_str());
        proof {
            let t = items.take(i + 1);
            assert(t.drop_last() =~= items.take(i as int));
            assert(t.last() == vals@[i as int]@);
            assert(s@ == mid + vals@[i as int]@);
            if i == 0 {
                assert(items.take(0) =~= Seq::<Seq<char>>::empty());
                assert(s@ =~= seq!['['] + join_items(t));
            } else {
                assert(join_items(t) == join_items(t.drop_last()) + seq![','] + t.last());
                assert(s@ =~= seq!['['] + (join_items(t.drop_last()) + seq![','] + t.last()));
            }
        }
        i = i + 1;
    }
    s.append("]");
    assert(items.take(vals@.len() as int) =~= items);
    s
}

/// A JSON array of numbers in decimal.
pub fn nums(vals: &[u32]) -> (r: String)
    ensures
        r@ == json_array(decimals(vals@)),
{
    let mut rendered: Vec<String> = Vec::new();
    let mut i: usize = 0;
    while i < vals.len()
        invariant
            i <= vals@.len(),
            texts(rendered@) == decimals(vals@.take(i as int)),
        decreases vals@.len() - i,
    {
        let d = decimal(vals[i] as u64);
        let ghost before = rendered@;
        rendered.push(d);
        proof {
            assert(rendered@ =~= before.push(d));
            assert(texts(rendered@) =~= texts(before).push(d@));
            assert(vals@.take(i + 1) =~= vals@.take(i as int).push(vals@[i as int]));
            assert(decimals(vals@.take(i + 1)) =~= decimals(vals@.take(i as int)).push(decimal_spec(vals@[i as int] as nat)));
        }
        i = i + 1;
    }
    assert(vals@.take(vals@.len() as int) =~= vals@);
    arr(rendered)
}

/// The emitter's argument vector:
/// `<degree_bits> <log_blowup> <num_queries> <query_pow_bits> [seed] [tamper]`.
pub struct FixtureArgs {
    /// The log2 of the trace height.
    pub degree_bits: usize,
    /// The log2 of the FRI blowup.
    pub log_blowup: usize,
    /// The number of FRI queries.
    pub num_queries: usize,
    /// The proof-of-work bits before the queries.
    pub query_pow_bits: usize,
    /// The trace seed.
    pub seed: u64,
    /// The tamper mode (`none` for an honest fixture).
    pub tamper: String,
}

/// The BabyBear hash suite.
pub struct BabyBearSuite;

} // verus!
