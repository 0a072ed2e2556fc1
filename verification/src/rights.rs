use vstd::prelude::*;
use vstd::std_specs::ops::{BitAndSpecImpl, BitOrSpecImpl};
use vstd::string::StringExecFns;

verus! {


/// What a capability permits: a small set of five rights bits. `GRANT`
/// controls delegation (`Kernel::derive`); `DESTROY` controls revocation,
/// reissue and destruction. `READ`/`WRITE`/`EXECUTE` carry no built-in
/// meaning here; channels and memory regions give them one.
#[derive(Debug, Clone, Copy, PartialEq, Eq, Structural, Hash)]
pub struct Rights(u32);

/// The bit of `READ`.
pub const READ_BIT: u32 = 1;
/// The bit of `WRITE`.
pub const WRITE_BIT: u32 = 2;
/// The bit of `EXECUTE`.
pub const EXECUTE_BIT: u32 = 4;
/// The bit of `GRANT`.
pub const GRANT_BIT: u32 = 8;
/// The bit of `DESTROY`.
pub const DESTROY_BIT: u32 = 16;
/// Every defined bit.
pub const ALL_BITS: u32 = 31;

/// `held` includes every bit of `required`.
pub open spec fn bits_contain(held: u32, required: u32) -> bool {
    held & required == required
}

impl Rights {
    /// The raw bit set.
    pub closed spec fn bits(self) -> u32 {
        self.0
    }

    /// The rights whose bit set is `b`.
    pub closed spec fn from_bits(b: u32) -> Rights {
        Rights(b)
    }


    pub open spec fn spec_contains(self, required: Rights) -> bool {
        bits_contain(self.bits(), required.bits())
    }

    /// No rights at all.
    #[allow(non_snake_case)]
    pub open spec fn spec_NONE() -> Rights {
        Rights::from_bits(0)
    }

    #[allow(non_snake_case)]
    #[verifier::when_used_as_spec(spec_NONE)]
    pub fn NONE() -> (r: Rights)
        ensures
            r == Self::spec_NONE(),
    {
        Rights(0)
    }

    /// May read (a region's bytes; a channel's messages).
    #[allow(non_snake_case)]
    pub open spec fn spec_READ() -> Rights {
        Rights::from_bits(READ_BIT)
    }

    #[allow(non_snake_case)]
    #[verifier::when_used_as_spec(spec_READ)]
    pub fn READ() -> (r: Rights)
        ensures
            r == Self::spec_READ(),
    {
        Rights(READ_BIT)
    }

    /// May write (a region's bytes; send on a channel).
    #[allow(non_snake_case)]
    pub open spec fn spec_WRITE() -> Rights {
        Rights::from_bits(WRITE_BIT)
    }

    #[allow(non_snake_case)]
    #[verifier::when_used_as_spec(spec_WRITE)]
    pub fn WRITE() -> (r: Rights)
        ensures
            r == Self::spec_WRITE(),
    {
        Rights(WRITE_BIT)
    }

    /// May execute.
    #[allow(non_snake_case)]
    pub open spec fn spec_EXECUTE() -> Rights {
        Rights::from_bits(EXECUTE_BIT)
    }

    #[allow(non_snake_case)]
    #[verifier::when_used_as_spec(spec_EXECUTE)]
    pub fn EXECUTE() -> (r: Rights)
        ensures
            r == Self::spec_EXECUTE(),
    {
        Rights(EXECUTE_BIT)
    }

    /// May derive weaker capabilities.
    #[allow(non_snake_case)]
    pub open spec fn spec_GRANT() -> Rights {
        Rights::from_bits(GRANT_BIT)
    }

    #[allow(non_snake_case)]
    #[verifier::when_used_as_spec(spec_GRANT)]
    pub fn GRANT() -> (r: Rights)
        ensures
            r == Self::spec_GRANT(),
    {
        Rights(GRANT_BIT)
    }

    /// May revoke, reissue or destroy: what owning an object means.
    #[allow(non_snake_case)]
    pub open spec fn spec_DESTROY() -> Rights {
        Rights::from_bits(DESTROY_BIT)
    }

    #[allow(non_snake_case)]
    #[verifier::when_used_as_spec(spec_DESTROY)]
    pub fn DESTROY() -> (r: Rights)
        ensures
            r == Self::spec_DESTROY(),
    {
        Rights(DESTROY_BIT)
    }

    /// Every right.
    #[allow(non_snake_case)]
    pub open spec fn spec_ALL() -> Rights {
        Rights::from_bits(ALL_BITS)
    }

    #[allow(non_snake_case)]
    #[verifier::when_used_as_spec(spec_ALL)]
    pub fn ALL() -> (r: Rights)
        ensures
            r == Self::spec_ALL(),
    {
        Rights(ALL_BITS)
    }

    /// True if `self` includes every bit set in `required`.
    #[verifier::when_used_as_spec(spec_contains)]
    pub fn contains(self, required: Rights) -> (r: bool)
        ensures
            r == self.spec_contains(required),
    {
        self.0 & required.0 == required.0
    }

    pub fn is_empty(self) -> (r: bool)
        ensures
            r == (self.bits() == 0),
    {
        self.0 == 0
    }

    /// The names of the held rights in bit order, joined by `|`; `NONE`
    /// when no right is held.
    pub fn to_string(&self) -> (s: String)
        ensures
            s@ == rights_text(self.bits()),
    {
        let mut s = String::new();
        proof {
            reveal_strlit("READ");
            reveal_strlit("WRITE");
            reveal_strlit("EXECUTE");
            reveal_strlit("GRANT");
            reveal_strlit("DESTROY");
            reveal_strlit("NONE");
            reveal_strlit("|");
        }
        append_name(&mut s, self.0 & READ_BIT != 0, "READ");
        append_name(&mut s, self.0 & WRITE_BIT != 0, "WRITE");
        append_name(&mut s, self.0 & EXECUTE_BIT != 0, "EXECUTE");
        append_name(&mut s, self.0 & GRANT_BIT != 0, "GRANT");
        append_name(&mut s, self.0 & DESTROY_BIT != 0, "DESTROY");
        if s.as_str().is_empty() {
            s.append("NONE");
        }
        s
    }
}

/// `acc` with `name` added when `held`, separated from earlier names by `|`.
pub open spec fn with_name(acc: Seq<char>, held: bool, name: Seq<char>) -> Seq<char> {
    if !held {
        acc
    } else if acc.len() == 0 {
        name
    } else {
        acc + "|"@ + name
    }
}

/// The held names joined by `|`, in bit order.
pub open spec fn held_names(bits: u32) -> Seq<char> {
    let r = with_name(Seq::empty(), bits & READ_BIT != 0, "READ"@);
    let w = with_name(r, bits & WRITE_BIT != 0, "WRITE"@);
    let x = with_name(w, bits & EXECUTE_BIT != 0, "EXECUTE"@);
    let g = with_name(x, bits & GRANT_BIT != 0, "GRANT"@);
    with_name(g, bits & DESTROY_BIT != 0, "DESTROY"@)
}

/// How a set of rights is written out.
pub open spec fn rights_text(bits: u32) -> Seq<char> {
    if held_names(bits).len() == 0 {
        "NONE"@
    } else {
        held_names(bits)
    }
}

fn append_name(s: &mut String, held: bool, name: &str)
    requires
        name@.len() > 0,
    ensures
        final(s)@ == with_name(old(s)@, held, name@),
{
    if held {
        if s.as_str().is_empty() {
            s.append(name);
        } else {
            s.append("|");
            s.append(name);
        }
    }
}

impl core::ops::BitOr for Rights {
    type Output = Rights;

    fn bitor(self, rhs: Rights) -> (r: Rights)
        ensures
            r.bits() == self.bits() | rhs.bits(),
    {
        Rights(self.0 | rhs.0)
    }
}

impl BitOrSpecImpl for Rights {
    open spec fn obeys_bitor_spec() -> bool {
        false
    }

    open spec fn bitor_req(self, rhs: Rights) -> bool {
        true
    }

    closed spec fn bitor_spec(self, rhs: Rights) -> Rights {
        Rights(self.0 | rhs.0)
    }
}

impl core::ops::BitAnd for Rights {
    type Output = Rights;

    fn bitand(self, rhs: Rights) -> (r: Rights)
        ensures
            r.bits() == self.bits() & rhs.bits(),
    {
        Rights(self.0 & rhs.0)
    }
}

impl BitAndSpecImpl for Rights {
    open spec fn obeys_bitand_spec() -> bool {
        false
    }

    open spec fn bitand_req(self, rhs: Rights) -> bool {
        true
    }

    closed spec fn bitand_spec(self, rhs: Rights) -> Rights {
        Rights(self.0 & rhs.0)
    }
}

/// The rights built from a bit set hold exactly that bit set.
pub broadcast proof fn lemma_from_bits(b: u32)
    ensures
        #[trigger] Rights::from_bits(b).bits() == b,
{
}

/// A rights value is nothing but its bit set.
pub broadcast proof fn lemma_bits_determine(r: Rights)
    ensures
        #[trigger] Rights::from_bits(r.bits()) == r,
{
}

pub broadcast group group_rights_bits {
    lemma_from_bits,
    lemma_bits_determine,
}

/// Every set of rights contains itself.
pub proof fn lemma_contains_reflexive(a: u32)
    ensures
        bits_contain(a, a),
{
    assert(a & a == a) by (bit_vector);
}

/// Containment is transitive: what `b` grants and `a` contains, `a` grants.
pub proof fn lemma_contains_transitive(a: u32, b: u32, c: u32)
    requires
        bits_contain(a, b),
        bits_contain(b, c),
    ensures
        bits_contain(a, c),
{
    assert(a & b == b && b & c == c ==> a & c == c) by (bit_vector);
}

} // verus!
