//! The device-session entity: identity, credential, opaque handle, and the
//! method table discovered at creation time.

use vstd::prelude::*;
use crate::codec::{chars_to_string, push_bytes, push_member_prefix, push_methods, push_string};
use crate::json::{
    key_device_type, key_handle, key_ip, key_methods, key_token, render_bytes, render_device,
    render_member, render_methods, render_string,
};
use crate::DeviceError;

verus! {

/// Mathematical model of a [`Device`]: every field as a plain sequence, the
/// method table as a sequence of key/value pairs in snapshot order.
#[verifier::ext_equal]
pub struct DeviceView {
    pub device_type: Seq<char>,
    pub ip: Seq<char>,
    pub token: Seq<char>,
    pub serialized_py_object: Seq<u8>,
    pub callable_methods: Seq<(Seq<char>, Seq<char>)>,
}

/// Keys of a method table are pairwise distinct, so the table denotes a
/// mapping from method name to signature.
pub open spec fn unique_keys(ms: Seq<(Seq<char>, Seq<char>)>) -> bool {
    forall|i: int, j: int|
        0 <= i < j < ms.len() ==> #[trigger] ms[i].0 != #[trigger] ms[j].0
}

impl DeviceView {
    /// A well-formed session: its method table denotes a mapping.
    pub open spec fn wf(self) -> bool {
        unique_keys(self.callable_methods)
    }
}

/// Lifts the view of an association list of owned strings to sequences.
pub open spec fn methods_view(ms: Seq<(String, String)>) -> Seq<(Seq<char>, Seq<char>)> {
    Seq::new(ms.len(), |i: int| (ms[i].0@, ms[i].1@))
}

/// A session with one Miio device, assembled from what the external
/// device-control library reported at creation time.  Functionally immutable:
/// no operation mutates a constructed session.
pub struct Device {
    device_type: String,
    ip: String,
    token: String,
    serialized_py_object: Vec<u8>,
    callable_methods: Vec<(String, String)>,
}

impl View for Device {
    type V = DeviceView;

    closed spec fn view(&self) -> DeviceView {
        DeviceView {
            device_type: self.device_type@,
            ip: self.ip@,
            token: self.token@,
            serialized_py_object: self.serialized_py_object@,
            callable_methods: methods_view(self.callable_methods@),
        }
    }
}

/// Order of first occurrence: the signature paired with the first entry
/// whose key is `k`, if any.
pub open spec fn lookup_method(ms: Seq<(Seq<char>, Seq<char>)>, k: Seq<char>) -> Option<Seq<char>>
    decreases ms.len(),
{
    if ms.len() == 0 {
        None
    } else if ms[0].0 == k {
        Some(ms[0].1)
    } else {
        lookup_method(ms.skip(1), k)
    }
}

pub(crate) fn str_eq(a: &str, b: &str) -> (r: bool)
    ensures
        r == (a@ == b@),
{
    let na = a.unicode_len();
    let nb = b.unicode_len();
    if na != nb {
        proof {
            if a@ == b@ {
                assert(a@.len() == b@.len());
            }
        }
        return false;
    }
    let mut k: usize = 0;
    while k < na
        invariant
            k <= na,
            na == a@.len(),
            na == b@.len(),
            forall|m: int| 0 <= m < k ==> a@[m] == b@[m],
        decreases na - k,
    {
        if a.get_char(k) != b.get_char(k) {
            proof {
                if a@ == b@ {
                    assert(a@[k as int] == b@[k as int]);
                }
            }
            return false;
        }
        k += 1;
    }
    proof {
        assert(a@ =~= b@);
    }
    true
}

/// Everything that one method invocation hands to the external library:
/// a copy of the session's opaque handle, the method name, and the argument
/// list, all passed through unmodified.
pub struct CallRequest {
    pub serialized_py_object: Vec<u8>,
    pub method_name: String,
    pub args: Vec<String>,
}

impl Device {
    /// Assembles a session from the five fields, exactly as given.  The whole
    /// operation is all-or-nothing: it yields a well-formed session precisely
    /// when the reported method table has pairwise-distinct keys, and a
    /// creation error otherwise, never a partially constructed session.
    pub fn from_parts(
        device_type: String,
        ip: String,
        token: String,
        serialized_py_object: Vec<u8>,
        callable_methods: Vec<(String, String)>,
    ) -> (r: Result<Device, DeviceError>)
        ensures
            match r {
                Ok(d) => {
                    &&& d@.wf()
                    &&& d@.device_type == device_type@
                    &&& d@.ip == ip@
                    &&& d@.token == token@
                    &&& d@.serialized_py_object == serialized_py_object@
                    &&& d@.callable_methods == methods_view(callable_methods@)
                },
                Err(e) => {
                    &&& !unique_keys(methods_view(callable_methods@))
                    &&& e is Creation
                },
            },
    {
        let n = callable_methods.len();
        let mut i: usize = 0;
        while i < n
            invariant
                n == callable_methods.len(),
                i <= n,
                forall|p: int, q: int|
                    0 <= p < q < callable_methods@.len() && p < i
                        ==> #[trigger] callable_methods@[p].0@
                            != #[trigger] callable_methods@[q].0@,
            decreases n - i,
        {
            let mut j: usize = i + 1;
            while j < n
                invariant
                    n == callable_methods.len(),
                    i < j <= n,
                    forall|q: int|
                        i < q < j ==> callable_methods@[i as int].0@
                            != #[trigger] callable_methods@[q].0@,
                decreases n - j,
            {
                if callable_methods[i].0 == callable_methods[j].0 {
                    assert(methods_view(callable_methods@)[i as int].0
                        == methods_view(callable_methods@)[j as int].0);
                    return Err(DeviceError::Creation(String::from_str(
                        "duplicate method name in reported method table",
                    )));
                }
                j += 1;
            }
            i += 1;
        }
        let d = Device { device_type, ip, token, serialized_py_object, callable_methods };
        assert(unique_keys(d@.callable_methods)) by {
            assert(forall|p: int, q: int|
                0 <= p < q < d.callable_methods@.len()
                    ==> #[trigger] methods_view(d.callable_methods@)[p].0
                        != #[trigger] methods_view(d.callable_methods@)[q].0);
        }
        Ok(d)
    }

    /// The external library's type name this session was created with.
    pub fn device_type(&self) -> (r: &String)
        ensures
            r@ == self@.device_type,
    {
        &self.device_type
    }

    /// The device's network address, held opaque and unvalidated.
    pub fn ip(&self) -> (r: &String)
        ensures
            r@ == self@.ip,
    {
        &self.ip
    }

    /// The authentication credential, passed through unmodified.
    pub fn token(&self) -> (r: &String)
        ensures
            r@ == self@.token,
    {
        &self.token
    }

    /// The opaque serialized device handle, exactly as the external library
    /// produced it.
    pub fn serialized_py_object(&self) -> (r: &Vec<u8>)
        ensures
            r@ == self@.serialized_py_object,
    {
        &self.serialized_py_object
    }

    /// The method table snapshot taken at creation time, in snapshot order.
    pub fn callable_methods(&self) -> (r: &Vec<(String, String)>)
        ensures
            methods_view(r@) == self@.callable_methods,
    {
        &self.callable_methods
    }

    /// The signature recorded for `name` in the creation-time method table,
    /// if the external library reported such a method.
    pub fn method_signature(&self, name: &str) -> (r: Option<&String>)
        ensures
            (match r {
                Some(sig) => lookup_method(self@.callable_methods, name@) == Some(sig@),
                None => lookup_method(self@.callable_methods, name@) is None,
            }),
    {
        let ghost ms = self@.callable_methods;
        let n = self.callable_methods.len();
        proof {
            assert(ms.skip(0) =~= ms);
        }
        let mut i: usize = 0;
        while i < n
            invariant
                i <= n,
                n == self.callable_methods@.len(),
                ms == self@.callable_methods,
                ms.len() == n,
                lookup_method(ms, name@) == lookup_method(ms.skip(i as int), name@),
            decreases n - i,
        {
            if str_eq(self.callable_methods[i].0.as_str(), name) {
                proof {
                    assert(ms.skip(i as int)[0] == ms[i as int]);
                    assert(ms[i as int].0 == name@);
                }
                return Some(&self.callable_methods[i].1);
            }
            proof {
                assert(ms.skip(i as int)[0] == ms[i as int]);
                assert(ms.skip(i as int).skip(1) =~= ms.skip(i + 1 as int));
            }
            i += 1;
        }
        proof {
            assert(ms.skip(n as int).len() == 0);
        }
        None
    }

    /// Serializes the session to its canonical pretty-printed JSON text,
    /// character for character the rendering that `render_device` defines.
    pub fn to_json(&self) -> (r: String)
        ensures
            r@ == render_device(self@),
    {
        let mut out: Vec<char> = Vec::new();
        out.push('{');
        push_member_prefix(&mut out, "device_type");
        push_string(&mut out, self.device_type.as_str());
        out.push(',');
        push_member_prefix(&mut out, "ip");
        push_string(&mut out, self.ip.as_str());
        out.push(',');
        push_member_prefix(&mut out, "token");
        push_string(&mut out, self.token.as_str());
        out.push(',');
        push_member_prefix(&mut out, "serialized_py_object");
        push_bytes(&mut out, &self.serialized_py_object);
        out.push(',');
        push_member_prefix(&mut out, "callable_methods");
        push_methods(&mut out, &self.callable_methods);
        out.push('\n');
        out.push('}');
        proof {
            assert(out@ =~= seq!['{']
                + render_member(key_device_type(), render_string(self@.device_type))
                + seq![','] + render_member(key_ip(), render_string(self@.ip))
                + seq![','] + render_member(key_token(), render_string(self@.token))
                + seq![','] + render_member(key_handle(),
                    render_bytes(self@.serialized_py_object))
                + seq![','] + render_member(key_methods(),
                    render_methods(self@.callable_methods))
                + seq!['\n', '}']);
            assert(out@ == render_device(self@));
        }
        chars_to_string(&out)
    }

    /// Builds the exact triple that an invocation of `method_name` with
    /// `args` hands across the interpreter boundary: the opaque handle is
    /// copied, never mutated, and name and arguments pass through unchanged.
    /// No local check is made against the method table; rejection of an
    /// unknown method is the external library's responsibility.
    pub fn call_request(&self, method_name: String, args: Vec<String>) -> (r: CallRequest)
        ensures
            r.serialized_py_object@ == self@.serialized_py_object,
            r.method_name@ == method_name@,
            r.args == args,
    {
        CallRequest {
            serialized_py_object: self.serialized_py_object.clone(),
            method_name,
            args,
        }
    }
}

} // verus!
