//! A security-telemetry ingestion and retention engine: an ordered,
//! column-partitioned key-value store with a compound-key codec, the ingest
//! dispatcher and its cumulative-acknowledgement protocol, the sensor roster,
//! and the peer-mesh membership logic.
pub mod codec;
pub mod graphql;
pub mod ingest;
pub mod ingestion;
pub mod keys;
pub mod kind;
pub mod order;
pub mod peer;
pub mod retention;
pub mod roster;
pub mod storage;

use vstd::prelude::*;

verus! {

/// Joins the given byte segments with single NUL separators, the compound-key
/// form used throughout the store.
pub open spec fn join_nul(args: Seq<Seq<u8>>) -> Seq<u8>
    decreases args.len(),
{
    if args.len() == 0 {
        Seq::empty()
    } else if args.len() == 1 {
        args[0]
    } else {
        args[0] + seq![0u8] + join_nul(args.drop_first())
    }
}

/// Composes a compound key from the given segments: each segment is written
/// out followed by a NUL, and the trailing NUL is dropped.
pub fn gen_key(args: Vec<Vec<u8>>) -> (key: Vec<u8>)
    ensures
        key@ == join_nul(args.deep_view()),
{
    let mut key: Vec<u8> = Vec::new();
    let mut i: usize = 0;
    while i < args.len()
        invariant
            i <= args.len(),
            key@ == if i == 0 { Seq::<u8>::empty() } else {
                join_nul(args.deep_view().take(i as int)) + seq![0u8]
            },
        decreases args.len() - i,
    {
        let mut j: usize = 0;
        let arg = &args[i];
        while j < arg.len()
            invariant
                j <= arg.len(),
                arg == args@[i as int],
                i < args.len(),
                key@ == if i == 0 { Seq::<u8>::empty() } else {
                    join_nul(args.deep_view().take(i as int)) + seq![0u8]
                } + arg@.take(j as int),
            decreases arg.len() - j,
        {
            key.push(arg[j]);
            j += 1;
        }
        key.push(0x00);
        proof {
            assert(arg@.take(arg@.len() as int) =~= arg@);
            lemma_join_nul_snoc(args.deep_view().take(i as int), args.deep_view()[i as int]);
            assert(args.deep_view().take(i as int).push(args.deep_view()[i as int])
                =~= args.deep_view().take(i + 1));
        }
        i += 1;
    }
    if key.len() > 0 {
        key.pop();
    }
    proof {
        if args.len() > 0 {
            assert(args.deep_view().take(args.len() as int) =~= args.deep_view());
            assert((join_nul(args.deep_view()) + seq![0u8]).drop_last() =~= join_nul(
                args.deep_view(),
            ));
        } else {
            assert(key@ =~= join_nul(args.deep_view()));
        }
    }
    key
}

proof fn lemma_join_nul_snoc(args: Seq<Seq<u8>>, last: Seq<u8>)
    ensures
        args.len() == 0 ==> join_nul(args.push(last)) == last,
        args.len() > 0 ==> join_nul(args.push(last)) == join_nul(args) + seq![0u8] + last,
    decreases args.len(),
{
    if args.len() == 0 {
        assert(args.push(last)[0] =~= last);
        assert(join_nul(args.push(last)) == last);
    } else {
        lemma_join_nul_snoc(args.drop_first(), last);
        assert(args.push(last).drop_first() =~= args.drop_first().push(last));
        if args.len() == 1 {
            assert(join_nul(args.push(last)) == args[0] + seq![0u8] + last);
            assert(join_nul(args) == args[0]);
        } else {
            assert(join_nul(args.push(last)) == args[0] + seq![0u8] + join_nul(
                args.drop_first().push(last),
            ));
            assert(args[0] + seq![0u8] + (join_nul(args.drop_first()) + seq![0u8] + last) =~= (
            args[0] + seq![0u8] + join_nul(args.drop_first())) + seq![0u8] + last);
        }
    }
}

} // verus!
