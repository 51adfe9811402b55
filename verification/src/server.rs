//! What the server does with one command.

use crate::command::{Command, Response};
use crate::engine::Store;
use crate::error::StoreError;
use vstd::prelude::*;

verus! {

/// Carries out one command on the store and gives the answer to send, if the
/// command has one: `Pong` to a `Ping`, nothing to a `Put`, which writes to
/// the store, and the key's value to a `Get`.
pub fn handle_command(store: &mut Store, command: &Command) -> (r: Result<
    Option<Response>,
    StoreError,
>)
    requires
        old(store).wf(),
    ensures
        final(store).wf(),
        match *command {
            Command::Ping => {
                &&& r == Ok::<Option<Response>, StoreError>(Some(Response::Pong))
                &&& final(store).state() == old(store).state()
                &&& final(store).directory() == old(store).directory()
            },
            Command::Put((key, value)) => {
                &&& r is Ok ==> r->Ok_0 is None
                &&& old(store).written(
                    *final(store),
                    key@,
                    value@,
                    match r {
                        Ok(_) => Ok(()),
                        Err(e) => Err(e),
                    },
                )
            },
            Command::Get(key) => {
                &&& final(store).state() == old(store).state()
                &&& final(store).directory() == old(store).directory()
                &&& r matches Ok(Some(Response::Value(found)))
                &&& match found {
                    Some(value) => old(store).state().get(key@) == Some(value@),
                    None => old(store).state().get(key@) is None,
                }
            },
        },
{
    match command {
        Command::Ping => Ok(Some(Response::Pong)),
        Command::Put((key, value)) => {
            match store.put(key.as_slice(), value.as_slice()) {
                Ok(()) => Ok(None),
                Err(e) => Err(e),
            }
        },
        Command::Get(key) => {
            let value = store.get(key.as_slice());
            Ok(Some(Response::Value(value)))
        },
    }
}

} // verus!
