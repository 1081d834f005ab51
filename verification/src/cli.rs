//! The three verbs a front end hands to the store, and their dispatch.
//!
//! The engine is embedded behind exactly these verbs.  A front end parses
//! whatever surface it likes into a `Cli` value and calls `run`; it owns
//! printing the returned value, translating the error into an exit code,
//! and mirroring the store's segments to disk.

use crate::errors::KvsError;
use crate::kv_store::KvStore;
use vstd::prelude::*;

verus! {

/// Arguments of the verb that sets the value of a string key.
#[derive(Debug)]
pub struct SetArgs {
    pub key: String,
    pub value: String,
}

/// Arguments of the verb that gets the value of a string key.
#[derive(Debug)]
pub struct GetArgs {
    pub key: String,
}

/// Arguments of the verb that removes a key.
#[derive(Debug)]
pub struct RmArgs {
    pub key: String,
}

/// One invocation of the store: set a key, get a key, or remove a key.
#[derive(Debug)]
pub enum Cli {
    Insert(SetArgs),
    Get(GetArgs),
    Rm(RmArgs),
}

/// Dispatches one verb against the store.  Setting and removing answer
/// nothing; getting answers the value.  Getting or removing an absent key
/// fails with `KeyNotFound`.
pub fn run(cli: Cli, store: &mut KvStore) -> (r: Result<Option<String>, KvsError>)
    requires
        old(store).wf(),
    ensures
        final(store).wf(),
        match cli {
            Cli::Insert(args) => {
                &&& r == Ok::<Option<String>, KvsError>(None)
                &&& final(store).kv() == old(store).kv().insert(args.key@, args.value@)
            },
            Cli::Get(args) => {
                &&& final(store).kv() == old(store).kv()
                &&& match r {
                    Ok(Some(v)) => old(store).kv().contains_key(args.key@) && v@ == old(
                        store,
                    ).kv()[args.key@],
                    Ok(None) => false,
                    Err(e) => e == KvsError::KeyNotFound && !old(store).kv().contains_key(
                        args.key@,
                    ),
                }
            },
            Cli::Rm(args) => {
                &&& old(store).kv().contains_key(args.key@) ==> r == Ok::<
                    Option<String>,
                    KvsError,
                >(None) && final(store).kv() == old(store).kv().remove(args.key@)
                &&& !old(store).kv().contains_key(args.key@) ==> r == Err::<
                    Option<String>,
                    KvsError,
                >(KvsError::KeyNotFound) && final(store).kv() == old(store).kv()
            },
        },
{
    match cli {
        Cli::Insert(args) => {
            store.set(args.key.as_str(), args.value.as_str())?;
            Ok(None)
        },
        Cli::Rm(args) => {
            store.remove(args.key.as_str())?;
            Ok(None)
        },
        Cli::Get(args) => {
            match store.get(args.key.as_str())? {
                Some(value) => Ok(Some(value)),
                None => Err(KvsError::KeyNotFound),
            }
        },
    }
}

} // verus!
