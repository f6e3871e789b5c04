use vstd::prelude::*;

verus! {

/// A physical address. Never converted implicitly into a virtual one.
#[derive(Clone, Copy, Debug, PartialEq, Eq)]
pub struct PhysicalAddress(pub usize);

/// A virtual address. Never converted implicitly into a physical one.
#[derive(Clone, Copy, Debug, PartialEq, Eq)]
pub struct VirtualAddress(pub usize);

/// The ASCII lowercase hex digit for `d`, below 16.
pub open spec fn hex_digit(d: int) -> u8 {
    if d < 10 {
        (48 + d) as u8
    } else {
        (87 + d) as u8
    }
}

/// `v` with its `k` lowest hex digits dropped.
pub open spec fn shifted(v: nat, k: nat) -> nat
    decreases k,
{
    if k == 0 {
        v
    } else {
        shifted(v, (k - 1) as nat) / 16
    }
}

/// The `width` lowest hex digits of `v`, most significant first.
pub open spec fn hex_digits(v: nat, width: nat) -> Seq<u8>
    decreases width,
{
    if width == 0 {
        Seq::<u8>::empty()
    } else {
        hex_digits(v / 16, (width - 1) as nat).push(hex_digit((v % 16) as int))
    }
}

/// How an address appears in logs: `0`, the kind letter, then 8 hex digits, or 16 for an
/// address above 4 GiB.
pub open spec fn address_text(kind: u8, v: nat) -> Seq<u8> {
    seq![48u8, kind] + hex_digits(v, if v <= 0xffff_ffff { 8 } else { 16 })
}

proof fn lemma_shifted_step(v: nat, k: nat)
    ensures
        shifted(v / 16, k) == shifted(v, k + 1),
    decreases k,
{
    if k > 0 {
        lemma_shifted_step(v, (k - 1) as nat);
        assert(shifted(v / 16, k) == shifted(v / 16, (k - 1) as nat) / 16);
    } else {
        assert(shifted(v, 1) == shifted(v, 0) / 16);
    }
    assert(shifted(v, k + 1) == shifted(v, k) / 16);
}

proof fn lemma_hex_digits_front(v: nat, k: nat)
    ensures
        hex_digits(v, k + 1) == seq![hex_digit((shifted(v, k) % 16) as int)] + hex_digits(v, k),
    decreases k,
{
    if k == 0 {
        assert(hex_digits(v / 16, 0) =~= Seq::<u8>::empty());
        assert(hex_digits(v, 1) =~= seq![hex_digit((v % 16) as int)]);
        assert(hex_digits(v, 0) =~= Seq::<u8>::empty());
    } else {
        lemma_hex_digits_front(v / 16, (k - 1) as nat);
        lemma_shifted_step(v, (k - 1) as nat);
        assert(hex_digits(v, k + 1) =~= seq![hex_digit((shifted(v, k) % 16) as int)] + hex_digits(v, k));
    }
}

/// Writes `v` as `address_text` does, with `kind` after the leading `0`.
fn address_bytes(kind: u8, v: usize) -> (r: Vec<u8>)
    ensures
        r@ == address_text(kind, v as nat),
{
    let width: usize = if v <= 0xffff_ffff {
        8
    } else {
        16
    };
    let mut out: Vec<u8> = Vec::new();
    let mut cur: usize = v;
    let mut k: usize = 0;
    while k < width
        invariant
            k <= width,
            width == (if v <= 0xffff_ffff { 8usize } else { 16usize }),
            out@ == hex_digits(v as nat, k as nat),
            cur as nat == shifted(v as nat, k as nat),
        decreases width - k,
    {
        let d = cur % 16;
        let c: u8 = if d < 10 {
            (48 + d) as u8
        } else {
            (87 + d) as u8
        };
        proof {
            lemma_hex_digits_front(v as nat, k as nat);
        }
        out.insert(0, c);
        assert(out@ =~= seq![hex_digit((shifted(v as nat, k as nat) % 16) as int)] + hex_digits(v as nat, k as nat));
        cur = cur / 16;
        k += 1;
    }
    let mut r: Vec<u8> = Vec::new();
    r.push(48);
    r.push(kind);
    r.append(&mut out);
    assert(r@ =~= address_text(kind, v as nat));
    r
}

impl PhysicalAddress {
    /// The address as logs show it, marked as physical: `0p` and its hex digits.
    pub fn debug_text(&self) -> (r: Vec<u8>)
        ensures
            r@ == address_text(112, self.0 as nat),
    {
        address_bytes(112, self.0)
    }

    /// The address `rhs` bytes further on.
    pub fn add(self, rhs: usize) -> (r: Self)
        requires
            self.0 + rhs <= usize::MAX,
        ensures
            r.0 == self.0 + rhs,
    {
        PhysicalAddress(self.0 + rhs)
    }

    /// Moves the address `rhs` bytes further on.
    pub fn add_assign(&mut self, rhs: usize)
        requires
            old(self).0 + rhs <= usize::MAX,
        ensures
            final(self).0 == old(self).0 + rhs,
    {
        self.0 = self.0 + rhs;
    }

    /// The distance in bytes from `rhs` up to this address.
    pub fn sub(self, rhs: Self) -> (r: usize)
        requires
            rhs.0 <= self.0,
        ensures
            r == self.0 - rhs.0,
    {
        self.0 - rhs.0
    }
}

impl VirtualAddress {
    /// The address as logs show it, marked as virtual: `0v` and its hex digits.
    pub fn debug_text(&self) -> (r: Vec<u8>)
        ensures
            r@ == address_text(118, self.0 as nat),
    {
        address_bytes(118, self.0)
    }

    /// The address `rhs` bytes further on.
    pub fn add(self, rhs: usize) -> (r: Self)
        requires
            self.0 + rhs <= usize::MAX,
        ensures
            r.0 == self.0 + rhs,
    {
        VirtualAddress(self.0 + rhs)
    }

    /// Moves the address `rhs` bytes further on.
    pub fn add_assign(&mut self, rhs: usize)
        requires
            old(self).0 + rhs <= usize::MAX,
        ensures
            final(self).0 == old(self).0 + rhs,
    {
        self.0 = self.0 + rhs;
    }

    /// The distance in bytes from `rhs` up to this address.
    pub fn sub(self, rhs: Self) -> (r: usize)
        requires
            rhs.0 <= self.0,
        ensures
            r == self.0 - rhs.0,
    {
        self.0 - rhs.0
    }
}

/// Why a mapping request was refused.
#[derive(Clone, Copy, Debug, PartialEq, Eq)]
pub enum MapError {
    /// A page of the requested range is already mapped.
    AlreadyMapped,
}

} // verus!
