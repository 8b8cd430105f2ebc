//! The capability set that every storage backend offers.
use vstd::prelude::*;

use crate::error::Result;
use crate::protocol::{
    get_reply, invalid_command, key_not_found, success, invalid_reply, remove_reply, set_reply, set_successful, Request,
};

verus! {

/// A storage backend: a handle that can be cloned and sent to other threads,
/// all clones sharing one store.
pub trait Engine: Clone + Send + 'static {
    /// Stores `value` under `key`.
    fn set(&self, key: String, value: String) -> Result<()>;

    /// The value stored under `key`, if any.
    fn get(&self, key: String) -> Result<Option<String>>;

    /// Removes `key`; `KeyNotFoundError` where it is absent.
    fn remove(&self, key: String) -> Result<()>;
}

/// Carries out `req` on `store` and returns the reply line. Errors of the
/// store are passed on, but for the absent key of `RM`, which is a reply.
pub fn respond<E: Engine>(store: &E, req: Request) -> (r: Result<String>)
    ensures
        req is Invalid ==> (r matches Ok(s) && s@ == invalid_command()),
        req is Store ==> (r matches Ok(s) ==> s@ == set_successful()),
        req is Remove ==> (r matches Ok(s) ==> s@ == success() || s@ == key_not_found()),
        req is Remove ==> (r matches Err(e) ==> !(e is KeyNotFoundError)),
{
    match req {
        Request::Get(key) => {
            let value = store.get(key)?;
            Ok(get_reply(value))
        },
        Request::Store(key, value) => {
            store.set(key, value)?;
            Ok(set_reply())
        },
        Request::Remove(key) => remove_reply(store.remove(key)),
        Request::Invalid(_) => Ok(invalid_reply()),
    }
}

} // verus!
