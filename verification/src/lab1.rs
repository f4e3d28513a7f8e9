use vstd::prelude::*;

verus! {

/// A client of one storage backend, reached at `addr`.
pub struct StorageClient {
    pub addr: String,
}

impl StorageClient {
    /// The value that a backend's reply to `get` stands for: the backend
    /// answers the empty string for a key it does not hold.
    pub fn value_from_reply(value: String) -> (r: Option<String>)
        ensures
            value@.len() == 0 ==> r is None,
            value@.len() != 0 ==> r == Some(value),
    {
        let default_string = String::new();
        assert(value@.len() == 0 ==> value@ =~= default_string@);
        if value == default_string {
            None
        } else {
            Some(value)
        }
    }
}

} // verus!
