//! Rich kernel error: a catalog code plus an ordered list of key/value
//! context pairs. The kernel only carries the tag and the raw context;
//! rendering (user strings, log records, sanitization) belongs to the
//! formatting collaborator around the kernel.

use vstd::prelude::*;
use super::error_catalog::AmmErrorCode;

verus! {

/// Kernel error with structured context.
#[derive(Debug, Clone)]
pub struct AmmError {
    /// The error's catalog code.
    pub code: AmmErrorCode,
    /// Ordered key/value context pairs, in insertion order.
    pub context: Vec<(String, String)>,
}

impl AmmError {
    /// A new error without context.
    pub fn new(code: AmmErrorCode) -> (r: AmmError)
        ensures
            r.code == code,
            r.context@ =~= Seq::<(String, String)>::empty(),
    {
        AmmError { code, context: Vec::new() }
    }

    /// Appends one key/value pair to the context; a pair with an empty key
    /// is dropped.
    pub fn with_context(self, key: String, value: String) -> (r: AmmError)
        ensures
            r.code == self.code,
            key@.len() == 0 ==> r.context@ =~= self.context@,
            key@.len() > 0 ==> r.context@ =~= self.context@.push((key, value)),
    {
        if key.as_str().is_empty() {
            self
        } else {
            let mut context = self.context;
            context.push((key, value));
            AmmError { code: self.code, context }
        }
    }
}

} // verus!
