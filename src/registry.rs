//! The allowlist: which helper programs may run, with how many arguments
//! and which capabilities.
use vstd::prelude::*;
use crate::capability::{parse_caps, CapError, CapabilitySet};

verus! {

/// One allowlisted helper.
pub struct Helper {
    /// The only value that element 0 of an invocation may have.
    pub path: String,
    /// The exact length of the invocation, element 0 included, if fixed.
    pub argc: Option<usize>,
    /// The capabilities to keep. `None` performs no restriction at all: the
    /// helper runs with the privileges the gatekeeper has. That differs
    /// from the empty set, which drops every capability; a configuration
    /// asks for the empty set with a list of separators only (`","`).
    pub capabilities: Option<CapabilitySet>,
}

impl Helper {
    pub open spec fn wf(&self) -> bool {
        match self.capabilities {
            Some(c) => c.wf(),
            None => true,
        }
    }

    /// Whether this helper admits an invocation (each argument as bytes).
    pub open spec fn admits(&self, args: Seq<Seq<u8>>) -> bool {
        &&& args.len() > 0
        &&& args[0] == text_bytes(self.path@)
        &&& (self.argc matches Some(n) ==> args.len() == n)
    }

    /// A helper as one record of the configuration gives it: the capability
    /// text, where there is one, is parsed.
    pub fn from_config(path: String, argc: Option<usize>, caps: Option<&str>) -> (r: Result<Helper, CapError>)
        ensures
            match caps {
                None => r is Ok && r->Ok_0.capabilities is None,
                Some(t) => match crate::capability::parse_spec(t@) {
                    Ok(None) => r is Ok && r->Ok_0.capabilities is None,
                    Ok(Some(set)) => r is Ok && r->Ok_0.capabilities is Some
                        && r->Ok_0.capabilities->0@ == set,
                    Err(name) => r is Err && r->Err_0.name@ == name,
                },
            },
            r is Ok ==> r->Ok_0.wf() && r->Ok_0.path@ == path@ && r->Ok_0.argc == argc,
    {
        let capabilities = match caps {
            None => None,
            Some(t) => match parse_caps(t) {
                Ok(c) => c,
                Err(e) => return Err(e),
            },
        };
        Ok(Helper { path, argc, capabilities })
    }

    /// Whether this helper admits the invocation `args`.
    pub fn allowed(&self, args: &Vec<Vec<u8>>) -> (r: bool)
        ensures
            r == self.admits(args.deep_view()),
    {
        assert(args.deep_view().len() == args@.len());
        if args.len() == 0 {
            return false;
        }
        assert(args.deep_view()[0] == args@[0]@);
        if !bytes_equal(self.path.as_str().as_bytes(), args[0].as_slice()) {
            return false;
        }
        match self.argc {
            Some(n) => args.len() == n,
            None => true,
        }
    }
}

/// The bytes of a text, as UTF-8.
pub open spec fn text_bytes(s: Seq<char>) -> Seq<u8> {
    vstd::utf8::encode_utf8(s)
}

fn bytes_equal(a: &[u8], b: &[u8]) -> (r: bool)
    ensures
        r == (a@ == b@),
{
    if a.len() != b.len() {
        return false;
    }
    let mut i: usize = 0;
    while i < a.len()
        invariant
            a@.len() == b@.len(),
            i <= a@.len(),
            forall|k: int| 0 <= k < i ==> a@[k] == b@[k],
        decreases a@.len() - i,
    {
        if a[i] != b[i] {
            return false;
        }
        i += 1;
    }
    assert(a@ =~= b@);
    true
}

/// The allowlist, in the order the configuration gives it: the first helper
/// that admits an invocation is the one that runs.
pub struct Registry {
    pub helpers: Vec<Helper>,
}

/// An invocation that no helper admits; it holds element 0, the invoked
/// path (empty where the invocation is empty), and nothing more.
pub struct UnknownHelper {
    pub path: Vec<u8>,
}

/// Element 0 of an invocation, or nothing where it is empty.
pub open spec fn invoked_path(args: Seq<Seq<u8>>) -> Seq<u8> {
    if args.len() > 0 {
        args[0]
    } else {
        Seq::<u8>::empty()
    }
}

impl UnknownHelper {
    /// The rejection of the invocation `args`.
    pub fn of(args: &Vec<Vec<u8>>) -> (r: UnknownHelper)
        ensures
            r.path@ == invoked_path(args.deep_view()),
    {
        let path = if args.len() > 0 {
            args[0].clone()
        } else {
            Vec::new()
        };
        proof {
            if args@.len() > 0 {
                assert(args.deep_view()[0] == args@[0]@);
            }
        }
        UnknownHelper { path }
    }
}

impl Registry {
    pub open spec fn wf(&self) -> bool {
        forall|i: int| 0 <= i < self.helpers@.len() ==> (#[trigger] self.helpers@[i]).wf()
    }

    /// Whether `i` is the first helper that admits `args`.
    pub open spec fn first_match(&self, args: Seq<Seq<u8>>, i: int) -> bool {
        &&& 0 <= i < self.helpers@.len()
        &&& self.helpers@[i].admits(args)
        &&& forall|j: int| 0 <= j < i ==> !(#[trigger] self.helpers@[j]).admits(args)
    }

    /// Whether no helper admits `args`.
    pub open spec fn rejects(&self, args: Seq<Seq<u8>>) -> bool {
        forall|j: int| 0 <= j < self.helpers@.len() ==> !(#[trigger] self.helpers@[j]).admits(args)
    }

    /// The position of the first helper that admits `args`.
    pub fn find_index(&self, args: &Vec<Vec<u8>>) -> (r: Option<usize>)
        ensures
            match r {
                Some(i) => self.first_match(args.deep_view(), i as int),
                None => self.rejects(args.deep_view()),
            },
    {
        let mut i: usize = 0;
        while i < self.helpers.len()
            invariant
                i <= self.helpers@.len(),
                forall|j: int| 0 <= j < i ==> !(#[trigger] self.helpers@[j]).admits(args.deep_view()),
            decreases self.helpers@.len() - i,
        {
            if self.helpers[i].allowed(args) {
                return Some(i);
            }
            i += 1;
        }
        None
    }

    /// The helper that runs for `args`: the first that admits it. Where none
    /// does, the invoked path comes back as the error.
    pub fn find_helper(&self, args: &Vec<Vec<u8>>) -> (r: Result<&Helper, UnknownHelper>)
        ensures
            match r {
                Ok(h) => exists|i: int| self.first_match(args.deep_view(), i) && *h == self.helpers@[i],
                Err(e) => self.rejects(args.deep_view()) && e.path@ == invoked_path(args.deep_view()),
            },
    {
        match self.find_index(args) {
            Some(i) => Ok(&self.helpers[i]),
            None => Err(UnknownHelper::of(args)),
        }
    }
}

/// An invocation whose element 0 is the path of no helper, or which is
/// empty, is rejected by every helper, whatever its length.
pub proof fn lemma_unlisted_path_rejected(registry: Registry, args: Seq<Seq<u8>>)
    requires
        args.len() > 0 ==> forall|i: int| 0 <= i < registry.helpers@.len() ==> args[0] != text_bytes(#[trigger] registry.helpers@[i].path@),
    ensures
        registry.rejects(args),
{
}

/// A helper with a fixed argument count rejects an invocation of any other
/// length, even one whose element 0 is its path.
pub proof fn lemma_wrong_count_rejected(h: Helper, args: Seq<Seq<u8>>, n: usize)
    requires
        h.argc == Some(n),
        args.len() != n,
    ensures
        !h.admits(args),
{
}

} // verus!
