//! The two storage backends behind one interface, and the choice between
//! them: the log-structured engine of this crate, and a thin adapter over the
//! sled embedded store.

use vstd::prelude::*;
use vstd::utf8::{decode_utf8_encode_utf8, encode_utf8, valid_utf8};
use crate::err::KvError;
use crate::kv::KvStore;

verus! {

/// Which engine a host asks for, or finds persisted in a directory's marker
/// file.
#[derive(Debug, Clone, Copy, PartialEq, Eq, Structural)]
pub enum EngineType {
    Auto,
    KvStore,
    Sled,
}

/// The marker text did not name an engine.
#[derive(Debug, Clone, Copy, PartialEq, Eq, Structural)]
pub struct ParseEngineTypeError;

impl ParseEngineTypeError {
    /// A short description of the error.
    pub fn message(&self) -> (m: &'static str)
        ensures
            m@ == "invalid engine type"@,
    {
        "invalid engine type"
    }
}

impl EngineType {
    /// Parses a marker text.
    pub fn from_text(s: &str) -> (r: Result<EngineType, ParseEngineTypeError>)
        ensures
            r == (if s@ == "auto"@ {
                Ok::<EngineType, ParseEngineTypeError>(EngineType::Auto)
            } else if s@ == "kvs"@ {
                Ok::<EngineType, ParseEngineTypeError>(EngineType::KvStore)
            } else if s@ == "sled"@ {
                Ok::<EngineType, ParseEngineTypeError>(EngineType::Sled)
            } else {
                Err::<EngineType, ParseEngineTypeError>(ParseEngineTypeError)
            }),
    {
        let given = String::from_str(s);
        if given == String::from_str("auto") {
            Ok(EngineType::Auto)
        } else if given == String::from_str("kvs") {
            Ok(EngineType::KvStore)
        } else if given == String::from_str("sled") {
            Ok(EngineType::Sled)
        } else {
            Err(ParseEngineTypeError)
        }
    }

    /// The marker text this engine is persisted under.
    pub fn as_text(&self) -> (m: &'static str)
        ensures
            m@ == (match self {
                EngineType::Auto => "auto"@,
                EngineType::KvStore => "kvs"@,
                EngineType::Sled => "sled"@,
            }),
    {
        match self {
            EngineType::Auto => "auto",
            EngineType::KvStore => "kvs",
            EngineType::Sled => "sled",
        }
    }
}

/// Decides which engine may own a directory: an explicit choice must match
/// the persisted marker and is refused before the store is touched when it
/// does not; `Auto` follows the marker, defaulting to the log-structured
/// engine.
pub fn resolve_engine(requested: EngineType, persisted: Option<EngineType>) -> (r: Result<
    EngineType,
    KvError,
>)
    ensures
        match requested {
            EngineType::Auto => r == Ok::<EngineType, KvError>(
                match persisted {
                    Some(EngineType::Sled) => EngineType::Sled,
                    _ => EngineType::KvStore,
                },
            ),
            EngineType::KvStore => r == (match persisted {
                Some(EngineType::Sled) => Err::<EngineType, KvError>(KvError::EngineMismatch),
                _ => Ok::<EngineType, KvError>(EngineType::KvStore),
            }),
            EngineType::Sled => r == (match persisted {
                Some(EngineType::KvStore) => Err::<EngineType, KvError>(KvError::EngineMismatch),
                _ => Ok::<EngineType, KvError>(EngineType::Sled),
            }),
        },
{
    match requested {
        EngineType::Auto => match persisted {
            Some(EngineType::Sled) => Ok(EngineType::Sled),
            _ => Ok(EngineType::KvStore),
        },
        EngineType::KvStore => match persisted {
            Some(EngineType::Sled) => Err(KvError::EngineMismatch),
            _ => Ok(EngineType::KvStore),
        },
        EngineType::Sled => match persisted {
            Some(EngineType::KvStore) => Err(KvError::EngineMismatch),
            _ => Ok(EngineType::Sled),
        },
    }
}

/// The capability a storage backend offers: set, get, remove, each keeping
/// the backend's own invariant.
pub trait KvsEngine {
    spec fn inv(&self) -> bool;

    fn set(&mut self, key: String, value: String) -> (r: Result<(), KvError>)
        requires
            old(self).inv(),
        ensures
            final(self).inv(),
    ;

    fn get(&mut self, key: String) -> (r: Result<Option<String>, KvError>)
        requires
            old(self).inv(),
        ensures
            final(self).inv(),
    ;

    fn remove(&mut self, key: String) -> (r: Result<(), KvError>)
        requires
            old(self).inv(),
        ensures
            final(self).inv(),
    ;
}

impl KvsEngine for KvStore {
    open spec fn inv(&self) -> bool {
        self.wf()
    }

    fn set(&mut self, key: String, value: String) -> (r: Result<(), KvError>) {
        if self.check_put(&key, &value) {
            KvStore::set(self, key, value)
        } else {
            Err(KvError::Unknown)
        }
    }

    fn get(&mut self, key: String) -> (r: Result<Option<String>, KvError>) {
        KvStore::get(self, key)
    }

    fn remove(&mut self, key: String) -> (r: Result<(), KvError>) {
        if self.check_remove(&key) {
            KvStore::remove(self, key)
        } else {
            match KvStore::get(self, key) {
                Ok(Some(_)) => Err(KvError::Unknown),
                Ok(None) => Err(KvError::KeyNotFound),
                Err(e) => Err(e),
            }
        }
    }
}

#[verifier::external_type_specification]
#[verifier::external_body]
pub struct ExSledDb(sled::Db);

#[verifier::external_type_specification]
#[verifier::external_body]
pub struct ExSledError(sled::Error);

pub uninterp spec fn db_view(db: sled::Db) -> Map<Seq<u8>, Seq<u8>>;

/// Relies on `sled::open`: opens or creates the tree that lives at `path`.
/// Its initial contents come from disk, so nothing is claimed of them.
#[verifier::external_body]
fn sled_open(path: &str) -> (r: Result<sled::Db, sled::Error>) {
    sled::open(path)
}

/// Relies on `sled::Tree::insert`: maps the key to the value and returns the
/// value that was set before, if any.
#[verifier::external_body]
fn sled_insert(db: &mut sled::Db, key: &str, value: &[u8]) -> (r: Result<
    Option<Vec<u8>>,
    sled::Error,
>)
    ensures
        match r {
            Ok(prior) => {
                &&& db_view(*final(db)) == db_view(*old(db)).insert(encode_utf8(key@), value@)
                &&& (prior is Some <==> db_view(*old(db)).contains_key(encode_utf8(key@)))
                &&& (prior is Some ==> prior->Some_0@ == db_view(*old(db))[encode_utf8(key@)])
            },
            Err(_) => true,
        },
{
    db.insert(key, value).map(|o| o.map(|iv| iv.to_vec()))
}

/// Relies on `sled::Tree::get`: returns the value the key maps to, leaving
/// the tree as it is.
#[verifier::external_body]
fn sled_get(db: &mut sled::Db, key: &str) -> (r: Result<Option<Vec<u8>>, sled::Error>)
    ensures
        db_view(*final(db)) == db_view(*old(db)),
        match r {
            Ok(v) => {
                &&& (v is Some <==> db_view(*old(db)).contains_key(encode_utf8(key@)))
                &&& (v is Some ==> v->Some_0@ == db_view(*old(db))[encode_utf8(key@)])
            },
            Err(_) => true,
        },
{
    db.get(key).map(|o| o.map(|iv| iv.to_vec()))
}

/// Relies on `sled::Tree::remove`: unmaps the key and returns the value it
/// had, if any.
#[verifier::external_body]
fn sled_remove(db: &mut sled::Db, key: &str) -> (r: Result<Option<Vec<u8>>, sled::Error>)
    ensures
        match r {
            Ok(prior) => {
                &&& db_view(*final(db)) == db_view(*old(db)).remove(encode_utf8(key@))
                &&& (prior is Some <==> db_view(*old(db)).contains_key(encode_utf8(key@)))
                &&& (prior is Some ==> prior->Some_0@ == db_view(*old(db))[encode_utf8(key@)])
            },
            Err(_) => true,
        },
{
    db.remove(key).map(|o| o.map(|iv| iv.to_vec()))
}

/// Relies on `sled::Tree::flush`: writes dirty buffers to disk; the tree's
/// contents stay what they were.
#[verifier::external_body]
fn sled_flush(db: &mut sled::Db) -> (r: Result<usize, sled::Error>)
    ensures
        db_view(*final(db)) == db_view(*old(db)),
{
    db.flush()
}

/// The thin adapter over the sled embedded store: keys and values go in as
/// their UTF-8 bytes.
pub struct Sled {
    db: sled::Db,
}

impl Sled {
    /// The key-to-value map the tree holds.
    pub closed spec fn db_map(self) -> Map<Seq<u8>, Seq<u8>> {
        db_view(self.db)
    }

    /// Opens the sled-backed engine over a directory. What it holds comes
    /// from disk, so nothing is claimed of the initial contents.
    pub fn open(path: &str) -> (r: Result<Sled, KvError>)
        ensures
            r is Err ==> r->Err_0 is Backend,
    {
        match sled_open(path) {
            Ok(db) => Ok(Sled { db }),
            Err(_) => Err(KvError::Backend),
        }
    }

    /// Maps `key` to `value` and flushes.
    pub fn set(&mut self, key: String, value: String) -> (r: Result<(), KvError>)
        ensures
            match r {
                Ok(()) => final(self).db_map() == old(self).db_map().insert(
                    encode_utf8(key@),
                    encode_utf8(value@),
                ),
                Err(e) => e is Backend,
            },
    {
        match sled_insert(&mut self.db, key.as_str(), value.as_str().as_bytes()) {
            Ok(_) => match sled_flush(&mut self.db) {
                Ok(_) => Ok(()),
                Err(_) => Err(KvError::Backend),
            },
            Err(_) => Err(KvError::Backend),
        }
    }

    /// Looks `key` up and decodes the stored bytes back to text.
    pub fn get(&mut self, key: String) -> (r: Result<Option<String>, KvError>)
        ensures
            final(self).db_map() == old(self).db_map(),
            match r {
                Ok(Some(v)) => old(self).db_map().contains_key(encode_utf8(key@)) && encode_utf8(
                    v@,
                ) == old(self).db_map()[encode_utf8(key@)],
                Ok(None) => !old(self).db_map().contains_key(encode_utf8(key@)),
                Err(KvError::Encode) => old(self).db_map().contains_key(encode_utf8(key@))
                    && !valid_utf8(old(self).db_map()[encode_utf8(key@)]),
                Err(KvError::Backend) => true,
                Err(_) => false,
            },
    {
        match sled_get(&mut self.db, key.as_str()) {
            Ok(Some(bytes)) => {
                let ghost b = bytes@;
                match crate::codec::string_from_utf8(bytes) {
                    Some(s) => {
                        proof {
                            decode_utf8_encode_utf8(b);
                        }
                        Ok(Some(s))
                    },
                    None => Err(KvError::Encode),
                }
            },
            Ok(None) => Ok(None),
            Err(_) => Err(KvError::Backend),
        }
    }

    /// Unmaps `key` and flushes; an absent key is reported without a write.
    pub fn remove(&mut self, key: String) -> (r: Result<(), KvError>)
        ensures
            match r {
                Ok(()) => old(self).db_map().contains_key(encode_utf8(key@))
                    && final(self).db_map() == old(self).db_map().remove(encode_utf8(key@)),
                Err(KvError::KeyNotFound) => !old(self).db_map().contains_key(encode_utf8(key@))
                    && final(self).db_map() == old(self).db_map(),
                Err(KvError::Backend) => true,
                Err(_) => false,
            },
    {
        match sled_remove(&mut self.db, key.as_str()) {
            Ok(Some(_)) => match sled_flush(&mut self.db) {
                Ok(_) => Ok(()),
                Err(_) => Err(KvError::Backend),
            },
            Ok(None) => Err(KvError::KeyNotFound),
            Err(_) => Err(KvError::Backend),
        }
    }
}

impl KvsEngine for Sled {
    open spec fn inv(&self) -> bool {
        true
    }

    fn set(&mut self, key: String, value: String) -> (r: Result<(), KvError>) {
        Sled::set(self, key, value)
    }

    fn get(&mut self, key: String) -> (r: Result<Option<String>, KvError>) {
        Sled::get(self, key)
    }

    fn remove(&mut self, key: String) -> (r: Result<(), KvError>) {
        Sled::remove(self, key)
    }
}

} // verus!
