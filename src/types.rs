use vstd::prelude::*;
use crate::net::{encode_hex, hex_lower};

verus! {

/// Whether compiled bytecode is a script or a module.
#[derive(Clone, Copy, Debug, PartialEq, Eq, Structural)]
pub enum MoveType {
    Script,
    Module,
}

/// The kind that a type parameter is constrained to.
#[derive(Clone, Copy, Debug, PartialEq, Eq, Structural)]
pub enum TypeParamKind {
    All,
    Resource,
    Copyable,
}

/// The kind of a struct.
#[derive(Clone, Copy, Debug, PartialEq, Eq, Structural)]
pub enum StructKind {
    HasResourceAsType,
    Resource,
    Copyable,
}

/// The decimal digits of `n`.
pub open spec fn decimal(n: nat) -> Seq<char>
    decreases n,
{
    if n < 10 {
        seq![digit_char(n)]
    } else {
        decimal(n / 10) + seq![digit_char(n % 10)]
    }
}

pub open spec fn digit_char(d: nat) -> char {
    seq!['0', '1', '2', '3', '4', '5', '6', '7', '8', '9'][d as int]
}

/// `n` in decimal.
fn decimal_string(n: u16) -> (r: String)
    ensures
        r@ == decimal(n as nat),
    decreases n,
{
    let digits = "0123456789";
    proof {
        reveal_strlit("0123456789");
    }
    let d = (n % 10) as usize;
    let last = digits.substring_ascii(d, d + 1);
    proof {
        assert(last@ =~= seq![digit_char((n % 10) as nat)]);
    }
    if n < 10 {
        String::from_str(last)
    } else {
        let mut r = decimal_string(n / 10);
        r.append(last);
        r
    }
}

/// A module: the address of the account that holds it, and its name.
pub struct ModAddr(pub [u8; 16], pub String);

impl ModAddr {
    pub fn new(addr: [u8; 16], name: String) -> (r: ModAddr)
        ensures
            r.0 == addr,
            r.1@ == name@,
    {
        ModAddr(addr, name)
    }

    pub fn name(&self) -> (r: &str)
        ensures
            r@ == self.1@,
    {
        self.1.as_str()
    }

    pub fn addr(&self) -> (r: &[u8; 16])
        ensures
            *r == self.0,
    {
        &self.0
    }

    pub fn split(self) -> (r: ([u8; 16], String))
        ensures
            r.0 == self.0,
            r.1@ == self.1@,
    {
        (self.0, self.1)
    }

    pub fn split_ref(&self) -> (r: (&[u8; 16], &str))
        ensures
            *r.0 == self.0,
            r.1@ == self.1@,
    {
        (&self.0, self.1.as_str())
    }

    pub open spec fn hex_view(&self) -> Seq<char> {
        hex_lower(self.0@) + "::"@ + self.1@
    }

    /// The address in lower-case hex, `::`, then the name.
    pub fn to_hex_string(&self) -> (r: String)
        ensures
            r@ == self.hex_view(),
    {
        let mut r = encode_hex(self.0.as_slice());
        r.append("::");
        r.append(self.1.as_str());
        r
    }
}

/// A function: its module and its name.
pub struct FnAddr(pub ModAddr, pub String);

impl FnAddr {
    pub fn new(module: ModAddr, name: String) -> (r: FnAddr)
        ensures
            r.0 == module,
            r.1@ == name@,
    {
        FnAddr(module, name)
    }

    pub fn name(&self) -> (r: &str)
        ensures
            r@ == self.1@,
    {
        self.1.as_str()
    }

    pub fn addr(&self) -> (r: &ModAddr)
        ensures
            *r == self.0,
    {
        &self.0
    }

    pub fn split(self) -> (r: (ModAddr, String))
        ensures
            r.0 == self.0,
            r.1@ == self.1@,
    {
        (self.0, self.1)
    }

    pub fn split_ref(&self) -> (r: (&ModAddr, &str))
        ensures
            *r.0 == self.0,
            r.1@ == self.1@,
    {
        (&self.0, self.1.as_str())
    }

    pub open spec fn hex_view(&self) -> Seq<char> {
        self.0.hex_view() + "::"@ + self.1@
    }

    /// The module in hex form, `::`, then the name.
    pub fn to_hex_string(&self) -> (r: String)
        ensures
            r@ == self.hex_view(),
    {
        let mut r = self.0.to_hex_string();
        r.append("::");
        r.append(self.1.as_str());
        r
    }
}

/// A struct: its module and its name.
pub struct StructAddr(pub ModAddr, pub String);

impl StructAddr {
    pub fn new(module: ModAddr, name: String) -> (r: StructAddr)
        ensures
            r.0 == module,
            r.1@ == name@,
    {
        StructAddr(module, name)
    }

    pub fn name(&self) -> (r: &str)
        ensures
            r@ == self.1@,
    {
        self.1.as_str()
    }

    pub fn addr(&self) -> (r: &ModAddr)
        ensures
            *r == self.0,
    {
        &self.0
    }

    pub fn split(self) -> (r: (ModAddr, String))
        ensures
            r.0 == self.0,
            r.1@ == self.1@,
    {
        (self.0, self.1)
    }

    pub fn split_ref(&self) -> (r: (&ModAddr, &str))
        ensures
            *r.0 == self.0,
            r.1@ == self.1@,
    {
        (&self.0, self.1.as_str())
    }

    /// The module in hex form, `::`, then the name.
    pub fn to_hex_string(&self) -> (r: String)
        ensures
            r@ == self.0.hex_view() + "::"@ + self.1@,
    {
        let mut r = self.0.to_hex_string();
        r.append("::");
        r.append(self.1.as_str());
        r
    }
}

/// A basic block: its function and its number.
pub struct BlockAddr(FnAddr, u16);

impl BlockAddr {
    pub fn new(fn_addr: FnAddr, id: u16) -> (r: BlockAddr)
        ensures
            r.addr_view() == fn_addr,
            r.id_view() == id,
    {
        BlockAddr(fn_addr, id)
    }

    pub closed spec fn addr_view(&self) -> FnAddr {
        self.0
    }

    pub closed spec fn id_view(&self) -> u16 {
        self.1
    }

    pub fn id(&self) -> (r: u16)
        ensures
            r == self.id_view(),
    {
        self.1
    }

    pub fn addr(&self) -> (r: &FnAddr)
        ensures
            *r == self.addr_view(),
    {
        &self.0
    }

    pub fn split(self) -> (r: (FnAddr, u16))
        ensures
            r.0 == self.addr_view(),
            r.1 == self.id_view(),
    {
        (self.0, self.1)
    }

    pub fn split_ref(&self) -> (r: (&FnAddr, u16))
        ensures
            *r.0 == self.addr_view(),
            r.1 == self.id_view(),
    {
        (&self.0, self.1)
    }

    /// The function in hex form, `:#`, then the block number in decimal.
    pub fn to_hex_string(&self) -> (r: String)
        ensures
            r@ == self.addr_view().hex_view() + ":#"@ + decimal(self.id_view() as nat),
    {
        let mut r = self.0.to_hex_string();
        r.append(":#");
        let id = decimal_string(self.1);
        r.append(id.as_str());
        r
    }
}

} // verus!
