//! The service layer: the request/response logic of the two protocol
//! front ends. Both translate wire requests into store operations on one
//! shared engine and must give identical outcomes for identical logical
//! operations; the transports themselves live outside this crate.
use vstd::prelude::*;
use vstd::utf8::{decode_utf8, encode_utf8, valid_utf8};
use crate::store::NanoEngine;

verus! {

/// What a lossy text reading of a byte sequence yields.
///
/// Relied on below through String::from_utf8_lossy: its result is a
/// function of the bytes alone.
pub uninterp spec fn lossy_utf8(bytes: Seq<u8>) -> Seq<char>;

/// Relies on String::from_utf8_lossy: valid UTF-8 converts without change;
/// anything else has its invalid sequences replaced, losing fidelity only
/// at this text boundary.
#[verifier::external_body]
fn bytes_to_lossy_string(bytes: &Vec<u8>) -> (s: String)
    ensures
        s@ == lossy_utf8(bytes@),
        valid_utf8(bytes@) ==> s@ == decode_utf8(bytes@),
{
    String::from_utf8_lossy(bytes.as_slice()).into_owned()
}

/// The reply of the remote Set operation.
pub struct SetResponse {
    pub success: bool,
    pub message: String,
}

/// The reply of the remote Get operation: found is an explicit field,
/// never an error.
pub struct GetResponse {
    pub found: bool,
    pub value: String,
}

/// The reply of the remote Delete operation.
pub struct DeleteResponse {
    pub success: bool,
    pub message: String,
}

/// The reply of the remote List operation.
pub struct ListResponse {
    pub keys: Vec<String>,
}

/// The reply shape of every REST route.
pub struct ApiResponse {
    pub success: bool,
    pub message: String,
    pub data: Option<String>,
}

/// The remote-operation front end over the shared engine.
pub struct NoahServer {
    engine: NanoEngine,
}

impl NoahServer {
    pub closed spec fn well_formed(&self) -> bool {
        self.engine.well_formed()
    }

    pub fn new() -> (server: Self)
        ensures
            server.well_formed(),
            server@ == Map::<Seq<char>, Seq<u8>>::empty(),
    {
        NoahServer { engine: NanoEngine::new() }
    }

    /// A server over an engine already seeded, as from a loaded snapshot.
    pub fn with_engine(engine: NanoEngine) -> (server: Self)
        requires
            engine.well_formed(),
        ensures
            server.well_formed(),
            server@ == engine@,
    {
        NoahServer { engine }
    }

    /// Store the request's value under its key; always succeeds. The value
    /// arrives as wire text and is kept as its exact bytes.
    pub fn set(&mut self, key: &str, value: String) -> (resp: SetResponse)
        requires
            old(self).well_formed(),
        ensures
            final(self).well_formed(),
            final(self)@ == old(self)@.insert(key@, encode_utf8(value@)),
            resp.success,
            resp.message@ == "Key '"@ + key@ + "' set successfully"@,
    {
        let bytes = value.as_str().as_bytes_vec();
        self.engine.set(key, bytes);
        SetResponse {
            success: true,
            message: String::from_str("Key '").concat(key).concat("' set successfully"),
        }
    }

    /// Look the key up; found is reported as a field. Stored bytes come
    /// back as text, lossily where they are not valid UTF-8.
    pub fn get(&self, key: &str) -> (resp: GetResponse)
        requires
            self.well_formed(),
        ensures
            resp.found == self@.contains_key(key@),
            resp.found ==> resp.value@ == lossy_utf8(self@[key@]),
            resp.found && valid_utf8(self@[key@]) ==> resp.value@ == decode_utf8(self@[key@]),
            !resp.found ==> resp.value@ == Seq::<char>::empty(),
    {
        match self.engine.get(key) {
            Some(value_bytes) => GetResponse {
                found: true,
                value: bytes_to_lossy_string(&value_bytes),
            },
            None => GetResponse { found: false, value: String::new() },
        }
    }

    /// Remove the key; an absent key is success=false, not an error.
    pub fn delete(&mut self, key: &str) -> (resp: DeleteResponse)
        requires
            old(self).well_formed(),
        ensures
            final(self).well_formed(),
            final(self)@ == old(self)@.remove(key@),
            resp.success == old(self)@.contains_key(key@),
            resp.success ==> resp.message@ == "Key '"@ + key@ + "' deleted successfully"@,
            !resp.success ==> resp.message@ == "Key '"@ + key@ + "' not found"@,
    {
        let existed = self.engine.delete(key);
        if existed {
            DeleteResponse {
                success: true,
                message: String::from_str("Key '").concat(key).concat("' deleted successfully"),
            }
        } else {
            DeleteResponse {
                success: false,
                message: String::from_str("Key '").concat(key).concat("' not found"),
            }
        }
    }

    /// List the keys under the request's prefix.
    pub fn list(&self, prefix: &str) -> (resp: ListResponse)
        requires
            self.well_formed(),
        ensures
            resp.keys@.map_values(|k: String| k@).to_set() == self@.dom().filter(
                |k: Seq<char>| prefix@.is_prefix_of(k),
            ),
            resp.keys@.map_values(|k: String| k@).no_duplicates(),
    {
        ListResponse { keys: self.engine.list_keys(prefix) }
    }
}

impl View for NoahServer {
    type V = Map<Seq<char>, Seq<u8>>;

    closed spec fn view(&self) -> Map<Seq<char>, Seq<u8>> {
        self.engine@
    }
}

/// The REST set route: store the body's value under its key.
pub fn http_set(engine: &mut NanoEngine, key: &str, value: String) -> (resp: ApiResponse)
    requires
        old(engine).well_formed(),
    ensures
        final(engine).well_formed(),
        final(engine)@ == old(engine)@.insert(key@, encode_utf8(value@)),
        resp.success,
        resp.message@ == "Key '"@ + key@ + "' set successfully"@,
        resp.data is None,
{
    let bytes = value.as_str().as_bytes_vec();
    engine.set(key, bytes);
    ApiResponse {
        success: true,
        message: String::from_str("Key '").concat(key).concat("' set successfully"),
        data: None,
    }
}

/// The REST get route: the value rides in the data field, the outcome in
/// the success field; a missing key is not an error.
pub fn http_get(engine: &NanoEngine, key: &str) -> (resp: ApiResponse)
    requires
        engine.well_formed(),
    ensures
        resp.success == engine@.contains_key(key@),
        resp.success ==> resp.message@ == "Key found"@ && (resp.data matches Some(d) && d@
            == lossy_utf8(engine@[key@])),
        !resp.success ==> resp.message@ == "Key not found"@ && resp.data is None,
{
    match engine.get(key) {
        Some(value_bytes) => ApiResponse {
            success: true,
            message: String::from_str("Key found"),
            data: Some(bytes_to_lossy_string(&value_bytes)),
        },
        None => ApiResponse {
            success: false,
            message: String::from_str("Key not found"),
            data: None,
        },
    }
}

/// The REST delete route: deleting a nonexistent key is a non-error
/// not-found outcome, exactly as on the remote-operation boundary.
pub fn http_delete(engine: &mut NanoEngine, key: &str) -> (resp: ApiResponse)
    requires
        old(engine).well_formed(),
    ensures
        final(engine).well_formed(),
        final(engine)@ == old(engine)@.remove(key@),
        resp.success == old(engine)@.contains_key(key@),
        resp.success ==> resp.message@ == "Key '"@ + key@ + "' deleted successfully"@,
        !resp.success ==> resp.message@ == "Key '"@ + key@ + "' not found"@,
        resp.data is None,
{
    let existed = engine.delete(key);
    if existed {
        ApiResponse {
            success: true,
            message: String::from_str("Key '").concat(key).concat("' deleted successfully"),
            data: None,
        }
    } else {
        ApiResponse {
            success: false,
            message: String::from_str("Key '").concat(key).concat("' not found"),
            data: None,
        }
    }
}

/// The REST list route: every key, with no prefix filter at this boundary.
pub fn http_list(engine: &NanoEngine) -> (keys: Vec<String>)
    requires
        engine.well_formed(),
    ensures
        keys@.map_values(|k: String| k@).to_set() == engine@.dom(),
        keys@.map_values(|k: String| k@).no_duplicates(),
{
    let keys = engine.list_keys("");
    proof {
        reveal_strlit("");
        assert forall|k: Seq<char>| engine@.dom().contains(k) implies ""@.is_prefix_of(k) by {
            assert(""@ =~= k.subrange(0, 0));
        }
        assert(engine@.dom().filter(|k: Seq<char>| ""@.is_prefix_of(k)) =~= engine@.dom());
    }
    keys
}

/// The REST diagnostic route: a fixed confirmation that unrestricted
/// cross-origin access reaches the service.
pub fn test_cors() -> (r: &'static str)
    ensures
        r@ == "CORS test successful"@,
{
    "CORS test successful"
}

} // verus!
