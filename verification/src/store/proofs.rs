//! What holds of the store, whatever it holds and whatever the instant.

use crate::store::redis::{
    model_after_get, model_delete, model_get, model_set, model_set_ex, Model,
};
use vstd::prelude::*;

verus! {

/// A reader who comes right after a write finds what was written, at any
/// instant.
pub proof fn lemma_get_after_set(model: Model, key: Seq<u8>, value: Seq<u8>, now: u128)
    ensures
        model_get(model_set(model, key, value), key, now) == Some(value),
        model_after_get(model_set(model, key, value), key, now) == model_set(model, key, value),
{
}

/// A reader who comes right after a deletion finds nothing, at any instant.
pub proof fn lemma_get_after_delete(model: Model, key: Seq<u8>, now: u128)
    ensures
        model_get(model_delete(model, key), key, now) is None,
        !model_after_get(model_delete(model, key), key, now).dom().contains(key),
{
}

/// An entry written at `written` to live for `ttl` is found by the reader
/// who comes no later than `written + ttl`.
pub proof fn lemma_get_before_deadline(
    model: Model,
    key: Seq<u8>,
    value: Seq<u8>,
    ttl: u128,
    written: u128,
    now: u128,
)
    requires
        now <= written + ttl,
    ensures
        model_get(model_set_ex(model, key, value, ttl, written), key, now) == Some(value),
{
}

/// An entry written at `written` to live for `ttl` is absent for the reader
/// who comes later than `written + ttl`, and it is no longer in the store
/// once that reader has come.
pub proof fn lemma_get_after_deadline(
    model: Model,
    key: Seq<u8>,
    value: Seq<u8>,
    ttl: u128,
    written: u128,
    now: u128,
)
    requires
        now > written + ttl,
    ensures
        model_get(model_set_ex(model, key, value, ttl, written), key, now) is None,
        !model_after_get(model_set_ex(model, key, value, ttl, written), key, now).dom().contains(
            key,
        ),
{
}

/// An entry written to live for no time at all is absent for every reader
/// who comes at a later instant.
pub proof fn lemma_get_after_no_lifetime(
    model: Model,
    key: Seq<u8>,
    value: Seq<u8>,
    written: u128,
    now: u128,
)
    requires
        now > written,
    ensures
        model_get(model_set_ex(model, key, value, 0, written), key, now) is None,
{
}

/// Writing the same value under the same key twice leaves the store as
/// writing it once does.
pub proof fn lemma_set_twice(model: Model, key: Seq<u8>, value: Seq<u8>)
    ensures
        model_set(model_set(model, key, value), key, value) == model_set(model, key, value),
{
    assert(model_set(model_set(model, key, value), key, value) =~= model_set(model, key, value));
}

/// Deleting a key twice leaves the store as deleting it once does.
pub proof fn lemma_delete_twice(model: Model, key: Seq<u8>)
    ensures
        model_delete(model_delete(model, key), key) == model_delete(model, key),
{
    assert(model_delete(model_delete(model, key), key) =~= model_delete(model, key));
}

/// A write touches its own key only: a reader of another key finds what was
/// there before.
pub proof fn lemma_set_other_key(
    model: Model,
    key: Seq<u8>,
    value: Seq<u8>,
    other: Seq<u8>,
    now: u128,
)
    requires
        other != key,
    ensures
        model_get(model_set(model, key, value), other, now) == model_get(model, other, now),
{
}

} // verus!
