//! Laws of the merge engine that relate several occurrences of a field.
use vstd::prelude::*;

use crate::descriptor::FieldType;
use crate::error::{Error, StreamError};
use crate::value::{is_packable, is_scalar, natural_wire, occurrence, packed_run, scalar_at, Field, Scalar};
use crate::wire::{lemma_varint_bounds, WireType};

verus! {

/// The values that successive unpacked occurrences of the scalar type `t`
/// hold, read one after another until `s` is used up.
pub open spec fn unpacked_run(t: FieldType, s: Seq<u8>) -> Result<Seq<Scalar>, Error>
    decreases s.len(),
{
    if s.len() == 0 {
        Ok(Seq::empty())
    } else {
        match occurrence(t, natural_wire(t), s) {
            Ok((xs, n)) => if n == 0 || n > s.len() {
                Err(Error::Stream(StreamError::Truncated))
            } else {
                match unpacked_run(t, s.subrange(n as int, s.len() as int)) {
                    Ok(ys) => Ok(xs + ys),
                    Err(e) => Err(e),
                }
            },
            Err(e) => Err(e),
        }
    }
}

/// A packed run of a packable scalar type holds the same values, in the same
/// order, as the same bytes read as a sequence of unpacked occurrences.
pub proof fn lemma_packed_as_unpacked(t: FieldType, s: Seq<u8>)
    requires
        is_packable(t),
        packed_run(t, s) is Ok,
    ensures
        unpacked_run(t, s) == Ok::<Seq<Scalar>, Error>(packed_run(t, s)->Ok_0),
    decreases s.len(),
{
    if s.len() > 0 {
        let (x, n) = scalar_at(t, s)->Ok_0;
        lemma_varint_bounds(s);
        lemma_packed_as_unpacked(t, s.subrange(n as int, s.len() as int));
    }
}

/// Storing a run of values at once, as a packed occurrence does, leaves a
/// field as storing them one at a time, as unpacked occurrences do, leaves it.
pub proof fn lemma_puts_one_by_one(xs: Seq<Scalar>, at_once: Field, steps: Seq<Field>)
    requires
        steps.len() == xs.len() + 1,
        at_once.puts_spec(steps[0], xs),
        forall|i: int| 0 <= i < xs.len() ==> #[trigger] steps[i + 1].puts_spec(steps[i], seq![xs[i]]),
    ensures
        at_once.scalars() == steps.last().scalars(),
        at_once.is_rep() == steps.last().is_rep(),
    decreases xs.len(),
{
    if xs.len() > 0 {
        let k = xs.len() - 1;
        let init = xs.subrange(0, k as int);
        let mid = steps.subrange(0, k + 1);
        assert forall|i: int| 0 <= i < init.len() implies #[trigger] mid[i + 1].puts_spec(
            mid[i],
            seq![init[i]],
        ) by {
            assert(mid[i + 1] == steps[i + 1]);
        }
        let prev = steps[k as int];
        assert(steps[k + 1].puts_spec(prev, seq![xs[k as int]]));
        assert(seq![xs[k as int]].map_values(|x: Scalar| Some(x)) =~= seq![Some(xs[k as int])]);
        if steps[0].is_rep() {
            lemma_same_shape(init, mid);
            assert(xs.map_values(|x: Scalar| Some(x)) =~= init.map_values(|x: Scalar| Some(x)).push(Some(xs[k as int])));
            // the run without its last value, stored one at a time
            assert(prev.scalars() == steps[0].scalars() + init.map_values(|x: Scalar| Some(x))) by {
                lemma_repeated_accumulates(init, mid);
            }
            assert(at_once.scalars() =~= steps.last().scalars());
        } else {
            lemma_same_shape(init, mid);
            assert(at_once.scalars() =~= steps.last().scalars());
        }
    } else {
        assert(xs.map_values(|x: Scalar| Some(x)) =~= Seq::<Option<Scalar>>::empty());
        assert(at_once.scalars() =~= steps[0].scalars());
    }
}

proof fn lemma_same_shape(xs: Seq<Scalar>, steps: Seq<Field>)
    requires
        steps.len() == xs.len() + 1,
        forall|i: int| 0 <= i < xs.len() ==> #[trigger] steps[i + 1].puts_spec(steps[i], seq![xs[i]]),
    ensures
        steps.last().is_rep() == steps[0].is_rep(),
    decreases xs.len(),
{
    if xs.len() > 0 {
        let k = xs.len() - 1;
        let init = xs.subrange(0, k as int);
        let mid = steps.subrange(0, k + 1);
        assert forall|i: int| 0 <= i < init.len() implies #[trigger] mid[i + 1].puts_spec(
            mid[i],
            seq![init[i]],
        ) by {
            assert(mid[i + 1] == steps[i + 1]);
        }
        lemma_same_shape(init, mid);
        assert(steps[k + 1].puts_spec(steps[k as int], seq![xs[k as int]]));
    }
}

proof fn lemma_repeated_accumulates(xs: Seq<Scalar>, steps: Seq<Field>)
    requires
        steps.len() == xs.len() + 1,
        steps[0].is_rep(),
        forall|i: int| 0 <= i < xs.len() ==> #[trigger] steps[i + 1].puts_spec(steps[i], seq![xs[i]]),
    ensures
        steps.last().scalars() == steps[0].scalars() + xs.map_values(|x: Scalar| Some(x)),
    decreases xs.len(),
{
    if xs.len() > 0 {
        let k = xs.len() - 1;
        let init = xs.subrange(0, k as int);
        let mid = steps.subrange(0, k + 1);
        assert forall|i: int| 0 <= i < init.len() implies #[trigger] mid[i + 1].puts_spec(
            mid[i],
            seq![init[i]],
        ) by {
            assert(mid[i + 1] == steps[i + 1]);
        }
        lemma_repeated_accumulates(init, mid);
        lemma_same_shape(init, mid);
        assert(steps[k + 1].puts_spec(steps[k as int], seq![xs[k as int]]));
        assert(seq![xs[k as int]].map_values(|x: Scalar| Some(x)) =~= seq![Some(xs[k as int])]);
        assert(xs.map_values(|x: Scalar| Some(x)) =~= init.map_values(|x: Scalar| Some(x)).push(Some(xs[k as int])));
        assert(steps.last().scalars() =~= steps[0].scalars() + xs.map_values(|x: Scalar| Some(x)));
    } else {
        assert(xs.map_values(|x: Scalar| Some(x)) =~= Seq::<Option<Scalar>>::empty());
        assert(steps.last().scalars() =~= steps[0].scalars() + xs.map_values(|x: Scalar| Some(x)));
    }
}

/// Two occurrences of a singular scalar field, one after the other: the
/// field holds the value of the second.
pub proof fn lemma_singular_last_wins(first: Scalar, second: Scalar, f0: Field, f1: Field, f2: Field)
    requires
        !f0.is_rep(),
        f1.puts_spec(f0, seq![first]),
        f2.puts_spec(f1, seq![second]),
    ensures
        f2.scalars() == seq![Some(second)],
{
    assert(seq![second].last() == second);
}

/// An occurrence whose wire type is neither the type's own nor, for a
/// packable type, length-delimited fails with that wire type.
pub proof fn lemma_wire_type_mismatch(t: FieldType, w: WireType, s: Seq<u8>)
    requires
        is_scalar(t) || t is Enum,
        t is Enum ==> w != WireType::Varint,
        !(t is Enum) ==> w != natural_wire(t),
        is_packable(t) ==> w != WireType::LengthDelimited,
    ensures
        occurrence(t, w, s) == Err::<(Seq<Scalar>, nat), Error>(Error::BadWireType { wire_type: w }),
{
}

} // verus!
