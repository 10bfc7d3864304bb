//! Little-endian integers stored byte for byte.
use vstd::prelude::*;
use crate::error::ZeroPodError;
use super::elem::ZcElem;
use super::prefix::{
    le_bytes, le_value, lemma_le_bytes_len, lemma_le_roundtrip,
    lemma_le_value_bound, pow256, push_le, push_le_wide, read_le_wide, read_len,
};
use super::string::lemma_le_bytes_zero;

verus! {

/// A little-endian 16-bit unsigned integer.
#[derive(Clone, Copy, Debug, PartialEq, Eq, Structural)]
pub struct PodU16 {
    value: u16,
}

impl PodU16 {
    pub closed spec fn spec_get(self) -> u16 {
        self.value
    }

    pub closed spec fn from_value(v: u16) -> Self {
        PodU16 { value: v }
    }

    pub proof fn lemma_from_value(v: u16)
        ensures
            Self::from_value(v).spec_get() == v,
    {
    }

    pub fn get(&self) -> (r: u16)
        ensures
            r == self.spec_get(),
    {
        self.value
    }

    pub fn set(&mut self, v: u16)
        ensures
            final(self).spec_get() == v,
    {
        self.value = v;
    }

    /// The sum, or `None` when it does not fit.
    pub fn checked_add(self, rhs: Self) -> (r: Option<Self>)
        ensures
            r is Some <==> 0 <= self.spec_get() + rhs.spec_get() <= u16::MAX,
            r matches Some(s) ==> s.spec_get() == self.spec_get() + rhs.spec_get(),
    {
        match self.value.checked_add(rhs.value) {
            Some(v) => Some(PodU16 { value: v }),
            None => None,
        }
    }

    /// The difference, or `None` when it does not fit.
    pub fn checked_sub(self, rhs: Self) -> (r: Option<Self>)
        ensures
            r is Some <==> 0 <= self.spec_get() - rhs.spec_get() <= u16::MAX,
            r matches Some(s) ==> s.spec_get() == self.spec_get() - rhs.spec_get(),
    {
        match self.value.checked_sub(rhs.value) {
            Some(v) => Some(PodU16 { value: v }),
            None => None,
        }
    }

    /// The sum, wrapped around modulo 2^16.
    pub fn wrapping_add(self, rhs: Self) -> (r: Self)
        ensures
            r.spec_get() == (if self.spec_get() + rhs.spec_get() > u16::MAX {
                self.spec_get() + rhs.spec_get() - 0x10000
            } else {
                self.spec_get() + rhs.spec_get()
            }),
    {
        PodU16 { value: self.value.wrapping_add(rhs.value) }
    }

    /// The difference, wrapped around modulo 2^16.
    pub fn wrapping_sub(self, rhs: Self) -> (r: Self)
        ensures
            r.spec_get() == (if self.spec_get() - rhs.spec_get() < 0 {
                self.spec_get() - rhs.spec_get() + 0x10000
            } else {
                self.spec_get() - rhs.spec_get()
            }),
    {
        PodU16 { value: self.value.wrapping_sub(rhs.value) }
    }
}

impl core::ops::Add for PodU16 {
    type Output = Self;

    /// The sum; like `+` on `u16`, it must fit.
    fn add(self, rhs: Self) -> (r: Self)
        ensures
            r.spec_get() == self.spec_get() + rhs.spec_get(),
    {
        PodU16 { value: self.value + rhs.value }
    }
}

impl vstd::std_specs::ops::AddSpecImpl for PodU16 {
    open spec fn obeys_add_spec() -> bool {
        true
    }

    open spec fn add_req(self, rhs: Self) -> bool {
        0 <= self.spec_get() + rhs.spec_get() <= u16::MAX
    }

    open spec fn add_spec(self, rhs: Self) -> Self {
        PodU16::from_value((self.spec_get() + rhs.spec_get()) as u16)
    }
}

impl core::ops::Sub for PodU16 {
    type Output = Self;

    /// The difference; like `-` on `u16`, it must fit.
    fn sub(self, rhs: Self) -> (r: Self)
        ensures
            r.spec_get() == self.spec_get() - rhs.spec_get(),
    {
        PodU16 { value: self.value - rhs.value }
    }
}

impl vstd::std_specs::ops::SubSpecImpl for PodU16 {
    open spec fn obeys_sub_spec() -> bool {
        true
    }

    open spec fn sub_req(self, rhs: Self) -> bool {
        0 <= self.spec_get() - rhs.spec_get() <= u16::MAX
    }

    open spec fn sub_spec(self, rhs: Self) -> Self {
        PodU16::from_value((self.spec_get() - rhs.spec_get()) as u16)
    }
}

impl From<u16> for PodU16 {
    fn from(v: u16) -> (r: Self) {
        PodU16 { value: v }
    }
}

impl vstd::std_specs::convert::FromSpecImpl<u16> for PodU16 {
    open spec fn obeys_from_spec() -> bool {
        true
    }

    open spec fn from_spec(v: u16) -> Self {
        PodU16::from_value(v)
    }
}

impl ZcElem for PodU16 {
    open spec fn spec_size() -> nat {
        2
    }

    closed spec fn encoded(self) -> Seq<u8> {
        le_bytes(self.value as nat, 2)
    }

    open spec fn spec_check(b: Seq<u8>) -> Option<ZeroPodError> {
        None
    }

    closed spec fn decoded(b: Seq<u8>) -> Self {
        PodU16 { value: le_value(b) as u16 }
    }

    open spec fn layout_ok() -> bool {
        true
    }

    open spec fn valid(self) -> bool {
        true
    }

    proof fn lemma_size(v: Self) {
        lemma_le_bytes_len(v.value as nat, 2);
    }

    fn assert_valid(&self) {
    }

    proof fn lemma_codec(v: Self) {
        lemma_le_bytes_len(v.value as nat, 2);
        reveal_with_fuel(pow256, 3);
        lemma_le_roundtrip(v.value as nat, 2);
    }

    fn size() -> (r: usize) {
        2
    }

    fn encode_into(&self, out: &mut Vec<u8>) {
        push_le(out, self.value as u64, 2);
    }

    fn check(b: &[u8]) -> (r: Option<ZeroPodError>) {
        None
    }

    fn zeroed() -> (r: Self) {
        proof {
            lemma_le_bytes_zero(2);
        }
        PodU16 { value: 0 }
    }

    fn decode(b: &[u8]) -> (r: Self) {
        let v = read_len(b, 0, 2);
        proof {
            assert(b@.subrange(0, 2) =~= b@);
            lemma_le_value_bound(b@);
            reveal_with_fuel(pow256, 3);
        }
        PodU16 { value: v as u16 }
    }
}

/// A little-endian 32-bit unsigned integer.
#[derive(Clone, Copy, Debug, PartialEq, Eq, Structural)]
pub struct PodU32 {
    value: u32,
}

impl PodU32 {
    pub closed spec fn spec_get(self) -> u32 {
        self.value
    }

    pub closed spec fn from_value(v: u32) -> Self {
        PodU32 { value: v }
    }

    pub proof fn lemma_from_value(v: u32)
        ensures
            Self::from_value(v).spec_get() == v,
    {
    }

    pub fn get(&self) -> (r: u32)
        ensures
            r == self.spec_get(),
    {
        self.value
    }

    pub fn set(&mut self, v: u32)
        ensures
            final(self).spec_get() == v,
    {
        self.value = v;
    }

    /// The sum, or `None` when it does not fit.
    pub fn checked_add(self, rhs: Self) -> (r: Option<Self>)
        ensures
            r is Some <==> 0 <= self.spec_get() + rhs.spec_get() <= u32::MAX,
            r matches Some(s) ==> s.spec_get() == self.spec_get() + rhs.spec_get(),
    {
        match self.value.checked_add(rhs.value) {
            Some(v) => Some(PodU32 { value: v }),
            None => None,
        }
    }

    /// The difference, or `None` when it does not fit.
    pub fn checked_sub(self, rhs: Self) -> (r: Option<Self>)
        ensures
            r is Some <==> 0 <= self.spec_get() - rhs.spec_get() <= u32::MAX,
            r matches Some(s) ==> s.spec_get() == self.spec_get() - rhs.spec_get(),
    {
        match self.value.checked_sub(rhs.value) {
            Some(v) => Some(PodU32 { value: v }),
            None => None,
        }
    }

    /// The sum, wrapped around modulo 2^32.
    pub fn wrapping_add(self, rhs: Self) -> (r: Self)
        ensures
            r.spec_get() == (if self.spec_get() + rhs.spec_get() > u32::MAX {
                self.spec_get() + rhs.spec_get() - 0x100000000
            } else {
                self.spec_get() + rhs.spec_get()
            }),
    {
        PodU32 { value: self.value.wrapping_add(rhs.value) }
    }

    /// The difference, wrapped around modulo 2^32.
    pub fn wrapping_sub(self, rhs: Self) -> (r: Self)
        ensures
            r.spec_get() == (if self.spec_get() - rhs.spec_get() < 0 {
                self.spec_get() - rhs.spec_get() + 0x100000000
            } else {
                self.spec_get() - rhs.spec_get()
            }),
    {
        PodU32 { value: self.value.wrapping_sub(rhs.value) }
    }
}

impl core::ops::Add for PodU32 {
    type Output = Self;

    /// The sum; like `+` on `u32`, it must fit.
    fn add(self, rhs: Self) -> (r: Self)
        ensures
            r.spec_get() == self.spec_get() + rhs.spec_get(),
    {
        PodU32 { value: self.value + rhs.value }
    }
}

impl vstd::std_specs::ops::AddSpecImpl for PodU32 {
    open spec fn obeys_add_spec() -> bool {
        true
    }

    open spec fn add_req(self, rhs: Self) -> bool {
        0 <= self.spec_get() + rhs.spec_get() <= u32::MAX
    }

    open spec fn add_spec(self, rhs: Self) -> Self {
        PodU32::from_value((self.spec_get() + rhs.spec_get()) as u32)
    }
}

impl core::ops::Sub for PodU32 {
    type Output = Self;

    /// The difference; like `-` on `u32`, it must fit.
    fn sub(self, rhs: Self) -> (r: Self)
        ensures
            r.spec_get() == self.spec_get() - rhs.spec_get(),
    {
        PodU32 { value: self.value - rhs.value }
    }
}

impl vstd::std_specs::ops::SubSpecImpl for PodU32 {
    open spec fn obeys_sub_spec() -> bool {
        true
    }

    open spec fn sub_req(self, rhs: Self) -> bool {
        0 <= self.spec_get() - rhs.spec_get() <= u32::MAX
    }

    open spec fn sub_spec(self, rhs: Self) -> Self {
        PodU32::from_value((self.spec_get() - rhs.spec_get()) as u32)
    }
}

impl From<u32> for PodU32 {
    fn from(v: u32) -> (r: Self) {
        PodU32 { value: v }
    }
}

impl vstd::std_specs::convert::FromSpecImpl<u32> for PodU32 {
    open spec fn obeys_from_spec() -> bool {
        true
    }

    open spec fn from_spec(v: u32) -> Self {
        PodU32::from_value(v)
    }
}

impl ZcElem for PodU32 {
    open spec fn spec_size() -> nat {
        4
    }

    closed spec fn encoded(self) -> Seq<u8> {
        le_bytes(self.value as nat, 4)
    }

    open spec fn spec_check(b: Seq<u8>) -> Option<ZeroPodError> {
        None
    }

    closed spec fn decoded(b: Seq<u8>) -> Self {
        PodU32 { value: le_value(b) as u32 }
    }

    open spec fn layout_ok() -> bool {
        true
    }

    open spec fn valid(self) -> bool {
        true
    }

    proof fn lemma_size(v: Self) {
        lemma_le_bytes_len(v.value as nat, 4);
    }

    fn assert_valid(&self) {
    }

    proof fn lemma_codec(v: Self) {
        lemma_le_bytes_len(v.value as nat, 4);
        reveal_with_fuel(pow256, 5);
        lemma_le_roundtrip(v.value as nat, 4);
    }

    fn size() -> (r: usize) {
        4
    }

    fn encode_into(&self, out: &mut Vec<u8>) {
        push_le(out, self.value as u64, 4);
    }

    fn check(b: &[u8]) -> (r: Option<ZeroPodError>) {
        None
    }

    fn zeroed() -> (r: Self) {
        proof {
            lemma_le_bytes_zero(4);
        }
        PodU32 { value: 0 }
    }

    fn decode(b: &[u8]) -> (r: Self) {
        let v = read_len(b, 0, 4);
        proof {
            assert(b@.subrange(0, 4) =~= b@);
            lemma_le_value_bound(b@);
            reveal_with_fuel(pow256, 5);
        }
        PodU32 { value: v as u32 }
    }
}

/// A little-endian 64-bit unsigned integer.
#[derive(Clone, Copy, Debug, PartialEq, Eq, Structural)]
pub struct PodU64 {
    value: u64,
}

impl PodU64 {
    pub closed spec fn spec_get(self) -> u64 {
        self.value
    }

    pub closed spec fn from_value(v: u64) -> Self {
        PodU64 { value: v }
    }

    pub proof fn lemma_from_value(v: u64)
        ensures
            Self::from_value(v).spec_get() == v,
    {
    }

    pub fn get(&self) -> (r: u64)
        ensures
            r == self.spec_get(),
    {
        self.value
    }

    pub fn set(&mut self, v: u64)
        ensures
            final(self).spec_get() == v,
    {
        self.value = v;
    }

    /// The sum, or `None` when it does not fit.
    pub fn checked_add(self, rhs: Self) -> (r: Option<Self>)
        ensures
            r is Some <==> 0 <= self.spec_get() + rhs.spec_get() <= u64::MAX,
            r matches Some(s) ==> s.spec_get() == self.spec_get() + rhs.spec_get(),
    {
        match self.value.checked_add(rhs.value) {
            Some(v) => Some(PodU64 { value: v }),
            None => None,
        }
    }

    /// The difference, or `None` when it does not fit.
    pub fn checked_sub(self, rhs: Self) -> (r: Option<Self>)
        ensures
            r is Some <==> 0 <= self.spec_get() - rhs.spec_get() <= u64::MAX,
            r matches Some(s) ==> s.spec_get() == self.spec_get() - rhs.spec_get(),
    {
        match self.value.checked_sub(rhs.value) {
            Some(v) => Some(PodU64 { value: v }),
            None => None,
        }
    }

    /// The sum, wrapped around modulo 2^64.
    pub fn wrapping_add(self, rhs: Self) -> (r: Self)
        ensures
            r.spec_get() == (if self.spec_get() + rhs.spec_get() > u64::MAX {
                self.spec_get() + rhs.spec_get() - 0x10000000000000000
            } else {
                self.spec_get() + rhs.spec_get()
            }),
    {
        PodU64 { value: self.value.wrapping_add(rhs.value) }
    }

    /// The difference, wrapped around modulo 2^64.
    pub fn wrapping_sub(self, rhs: Self) -> (r: Self)
        ensures
            r.spec_get() == (if self.spec_get() - rhs.spec_get() < 0 {
                self.spec_get() - rhs.spec_get() + 0x10000000000000000
            } else {
                self.spec_get() - rhs.spec_get()
            }),
    {
        PodU64 { value: self.value.wrapping_sub(rhs.value) }
    }
}

impl core::ops::Add for PodU64 {
    type Output = Self;

    /// The sum; like `+` on `u64`, it must fit.
    fn add(self, rhs: Self) -> (r: Self)
        ensures
            r.spec_get() == self.spec_get() + rhs.spec_get(),
    {
        PodU64 { value: self.value + rhs.value }
    }
}

impl vstd::std_specs::ops::AddSpecImpl for PodU64 {
    open spec fn obeys_add_spec() -> bool {
        true
    }

    open spec fn add_req(self, rhs: Self) -> bool {
        0 <= self.spec_get() + rhs.spec_get() <= u64::MAX
    }

    open spec fn add_spec(self, rhs: Self) -> Self {
        PodU64::from_value((self.spec_get() + rhs.spec_get()) as u64)
    }
}

impl core::ops::Sub for PodU64 {
    type Output = Self;

    /// The difference; like `-` on `u64`, it must fit.
    fn sub(self, rhs: Self) -> (r: Self)
        ensures
            r.spec_get() == self.spec_get() - rhs.spec_get(),
    {
        PodU64 { value: self.value - rhs.value }
    }
}

impl vstd::std_specs::ops::SubSpecImpl for PodU64 {
    open spec fn obeys_sub_spec() -> bool {
        true
    }

    open spec fn sub_req(self, rhs: Self) -> bool {
        0 <= self.spec_get() - rhs.spec_get() <= u64::MAX
    }

    open spec fn sub_spec(self, rhs: Self) -> Self {
        PodU64::from_value((self.spec_get() - rhs.spec_get()) as u64)
    }
}

impl From<u64> for PodU64 {
    fn from(v: u64) -> (r: Self) {
        PodU64 { value: v }
    }
}

impl vstd::std_specs::convert::FromSpecImpl<u64> for PodU64 {
    open spec fn obeys_from_spec() -> bool {
        true
    }

    open spec fn from_spec(v: u64) -> Self {
        PodU64::from_value(v)
    }
}

impl ZcElem for PodU64 {
    open spec fn spec_size() -> nat {
        8
    }

    closed spec fn encoded(self) -> Seq<u8> {
        le_bytes(self.value as nat, 8)
    }

    open spec fn spec_check(b: Seq<u8>) -> Option<ZeroPodError> {
        None
    }

    closed spec fn decoded(b: Seq<u8>) -> Self {
        PodU64 { value: le_value(b) as u64 }
    }

    open spec fn layout_ok() -> bool {
        true
    }

    open spec fn valid(self) -> bool {
        true
    }

    proof fn lemma_size(v: Self) {
        lemma_le_bytes_len(v.value as nat, 8);
    }

    fn assert_valid(&self) {
    }

    proof fn lemma_codec(v: Self) {
        lemma_le_bytes_len(v.value as nat, 8);
        reveal_with_fuel(pow256, 9);
        lemma_le_roundtrip(v.value as nat, 8);
    }

    fn size() -> (r: usize) {
        8
    }

    fn encode_into(&self, out: &mut Vec<u8>) {
        push_le(out, self.value as u64, 8);
    }

    fn check(b: &[u8]) -> (r: Option<ZeroPodError>) {
        None
    }

    fn zeroed() -> (r: Self) {
        proof {
            lemma_le_bytes_zero(8);
        }
        PodU64 { value: 0 }
    }

    fn decode(b: &[u8]) -> (r: Self) {
        let v = read_len(b, 0, 8);
        proof {
            assert(b@.subrange(0, 8) =~= b@);
            lemma_le_value_bound(b@);
            reveal_with_fuel(pow256, 9);
        }
        PodU64 { value: v as u64 }
    }
}

/// A little-endian 128-bit unsigned integer.
#[derive(Clone, Copy, Debug, PartialEq, Eq, Structural)]
pub struct PodU128 {
    value: u128,
}

impl PodU128 {
    pub closed spec fn spec_get(self) -> u128 {
        self.value
    }

    pub closed spec fn from_value(v: u128) -> Self {
        PodU128 { value: v }
    }

    pub proof fn lemma_from_value(v: u128)
        ensures
            Self::from_value(v).spec_get() == v,
    {
    }

    pub fn get(&self) -> (r: u128)
        ensures
            r == self.spec_get(),
    {
        self.value
    }

    pub fn set(&mut self, v: u128)
        ensures
            final(self).spec_get() == v,
    {
        self.value = v;
    }

    /// The sum, or `None` when it does not fit.
    pub fn checked_add(self, rhs: Self) -> (r: Option<Self>)
        ensures
            r is Some <==> 0 <= self.spec_get() + rhs.spec_get() <= u128::MAX,
            r matches Some(s) ==> s.spec_get() == self.spec_get() + rhs.spec_get(),
    {
        match self.value.checked_add(rhs.value) {
            Some(v) => Some(PodU128 { value: v }),
            None => None,
        }
    }

    /// The difference, or `None` when it does not fit.
    pub fn checked_sub(self, rhs: Self) -> (r: Option<Self>)
        ensures
            r is Some <==> 0 <= self.spec_get() - rhs.spec_get() <= u128::MAX,
            r matches Some(s) ==> s.spec_get() == self.spec_get() - rhs.spec_get(),
    {
        match self.value.checked_sub(rhs.value) {
            Some(v) => Some(PodU128 { value: v }),
            None => None,
        }
    }

    /// The sum, wrapped around modulo 2^128.
    pub fn wrapping_add(self, rhs: Self) -> (r: Self)
        ensures
            r.spec_get() == (if self.spec_get() + rhs.spec_get() > u128::MAX {
                self.spec_get() + rhs.spec_get() - 0x100000000000000000000000000000000
            } else {
                self.spec_get() + rhs.spec_get()
            }),
    {
        PodU128 { value: self.value.wrapping_add(rhs.value) }
    }

    /// The difference, wrapped around modulo 2^128.
    pub fn wrapping_sub(self, rhs: Self) -> (r: Self)
        ensures
            r.spec_get() == (if self.spec_get() - rhs.spec_get() < 0 {
                self.spec_get() - rhs.spec_get() + 0x100000000000000000000000000000000
            } else {
                self.spec_get() - rhs.spec_get()
            }),
    {
        PodU128 { value: self.value.wrapping_sub(rhs.value) }
    }
}

impl core::ops::Add for PodU128 {
    type Output = Self;

    /// The sum; like `+` on `u128`, it must fit.
    fn add(self, rhs: Self) -> (r: Self)
        ensures
            r.spec_get() == self.spec_get() + rhs.spec_get(),
    {
        PodU128 { value: self.value + rhs.value }
    }
}

impl vstd::std_specs::ops::AddSpecImpl for PodU128 {
    open spec fn obeys_add_spec() -> bool {
        true
    }

    open spec fn add_req(self, rhs: Self) -> bool {
        0 <= self.spec_get() + rhs.spec_get() <= u128::MAX
    }

    open spec fn add_spec(self, rhs: Self) -> Self {
        PodU128::from_value((self.spec_get() + rhs.spec_get()) as u128)
    }
}

impl core::ops::Sub for PodU128 {
    type Output = Self;

    /// The difference; like `-` on `u128`, it must fit.
    fn sub(self, rhs: Self) -> (r: Self)
        ensures
            r.spec_get() == self.spec_get() - rhs.spec_get(),
    {
        PodU128 { value: self.value - rhs.value }
    }
}

impl vstd::std_specs::ops::SubSpecImpl for PodU128 {
    open spec fn obeys_sub_spec() -> bool {
        true
    }

    open spec fn sub_req(self, rhs: Self) -> bool {
        0 <= self.spec_get() - rhs.spec_get() <= u128::MAX
    }

    open spec fn sub_spec(self, rhs: Self) -> Self {
        PodU128::from_value((self.spec_get() - rhs.spec_get()) as u128)
    }
}

impl From<u128> for PodU128 {
    fn from(v: u128) -> (r: Self) {
        PodU128 { value: v }
    }
}

impl vstd::std_specs::convert::FromSpecImpl<u128> for PodU128 {
    open spec fn obeys_from_spec() -> bool {
        true
    }

    open spec fn from_spec(v: u128) -> Self {
        PodU128::from_value(v)
    }
}

impl ZcElem for PodU128 {
    open spec fn spec_size() -> nat {
        16
    }

    closed spec fn encoded(self) -> Seq<u8> {
        le_bytes(self.value as nat, 16)
    }

    open spec fn spec_check(b: Seq<u8>) -> Option<ZeroPodError> {
        None
    }

    closed spec fn decoded(b: Seq<u8>) -> Self {
        PodU128 { value: le_value(b) as u128 }
    }

    open spec fn layout_ok() -> bool {
        true
    }

    open spec fn valid(self) -> bool {
        true
    }

    proof fn lemma_size(v: Self) {
        lemma_le_bytes_len(v.value as nat, 16);
    }

    fn assert_valid(&self) {
    }

    proof fn lemma_codec(v: Self) {
        lemma_le_bytes_len(v.value as nat, 16);
        reveal_with_fuel(pow256, 17);
        lemma_le_roundtrip(v.value as nat, 16);
    }

    fn size() -> (r: usize) {
        16
    }

    fn encode_into(&self, out: &mut Vec<u8>) {
        push_le_wide(out, self.value as u128, 16);
    }

    fn check(b: &[u8]) -> (r: Option<ZeroPodError>) {
        None
    }

    fn zeroed() -> (r: Self) {
        proof {
            lemma_le_bytes_zero(16);
        }
        PodU128 { value: 0 }
    }

    fn decode(b: &[u8]) -> (r: Self) {
        let v = read_le_wide(b, 0, 16);
        proof {
            assert(b@.subrange(0, 16) =~= b@);
            lemma_le_value_bound(b@);
            reveal_with_fuel(pow256, 17);
        }
        PodU128 { value: v as u128 }
    }
}

/// A little-endian 16-bit signed integer.
#[derive(Clone, Copy, Debug, PartialEq, Eq, Structural)]
pub struct PodI16 {
    value: i16,
}

impl PodI16 {
    pub closed spec fn spec_get(self) -> i16 {
        self.value
    }

    pub closed spec fn from_value(v: i16) -> Self {
        PodI16 { value: v }
    }

    pub proof fn lemma_from_value(v: i16)
        ensures
            Self::from_value(v).spec_get() == v,
    {
    }

    pub fn get(&self) -> (r: i16)
        ensures
            r == self.spec_get(),
    {
        self.value
    }

    pub fn set(&mut self, v: i16)
        ensures
            final(self).spec_get() == v,
    {
        self.value = v;
    }

    /// The sum, or `None` when it does not fit.
    pub fn checked_add(self, rhs: Self) -> (r: Option<Self>)
        ensures
            r is Some <==> i16::MIN <= self.spec_get() + rhs.spec_get() <= i16::MAX,
            r matches Some(s) ==> s.spec_get() == self.spec_get() + rhs.spec_get(),
    {
        match self.value.checked_add(rhs.value) {
            Some(v) => Some(PodI16 { value: v }),
            None => None,
        }
    }

    /// The difference, or `None` when it does not fit.
    pub fn checked_sub(self, rhs: Self) -> (r: Option<Self>)
        ensures
            r is Some <==> i16::MIN <= self.spec_get() - rhs.spec_get() <= i16::MAX,
            r matches Some(s) ==> s.spec_get() == self.spec_get() - rhs.spec_get(),
    {
        match self.value.checked_sub(rhs.value) {
            Some(v) => Some(PodI16 { value: v }),
            None => None,
        }
    }

    /// The sum, wrapped around modulo 2^16.
    pub fn wrapping_add(self, rhs: Self) -> (r: Self)
        ensures
            r.spec_get() == (if self.spec_get() + rhs.spec_get() > i16::MAX {
                self.spec_get() + rhs.spec_get() - 0x10000
            } else if self.spec_get() + rhs.spec_get() < i16::MIN {
                self.spec_get() + rhs.spec_get() + 0x10000
            } else {
                self.spec_get() + rhs.spec_get()
            }),
    {
        PodI16 { value: self.value.wrapping_add(rhs.value) }
    }

    /// The difference, wrapped around modulo 2^16.
    pub fn wrapping_sub(self, rhs: Self) -> (r: Self)
        ensures
            r.spec_get() == (if self.spec_get() - rhs.spec_get() > i16::MAX {
                self.spec_get() - rhs.spec_get() - 0x10000
            } else if self.spec_get() - rhs.spec_get() < i16::MIN {
                self.spec_get() - rhs.spec_get() + 0x10000
            } else {
                self.spec_get() - rhs.spec_get()
            }),
    {
        PodI16 { value: self.value.wrapping_sub(rhs.value) }
    }
}

impl core::ops::Add for PodI16 {
    type Output = Self;

    /// The sum; like `+` on `i16`, it must fit.
    fn add(self, rhs: Self) -> (r: Self)
        ensures
            r.spec_get() == self.spec_get() + rhs.spec_get(),
    {
        PodI16 { value: self.value + rhs.value }
    }
}

impl vstd::std_specs::ops::AddSpecImpl for PodI16 {
    open spec fn obeys_add_spec() -> bool {
        true
    }

    open spec fn add_req(self, rhs: Self) -> bool {
        i16::MIN <= self.spec_get() + rhs.spec_get() <= i16::MAX
    }

    open spec fn add_spec(self, rhs: Self) -> Self {
        PodI16::from_value((self.spec_get() + rhs.spec_get()) as i16)
    }
}

impl core::ops::Sub for PodI16 {
    type Output = Self;

    /// The difference; like `-` on `i16`, it must fit.
    fn sub(self, rhs: Self) -> (r: Self)
        ensures
            r.spec_get() == self.spec_get() - rhs.spec_get(),
    {
        PodI16 { value: self.value - rhs.value }
    }
}

impl vstd::std_specs::ops::SubSpecImpl for PodI16 {
    open spec fn obeys_sub_spec() -> bool {
        true
    }

    open spec fn sub_req(self, rhs: Self) -> bool {
        i16::MIN <= self.spec_get() - rhs.spec_get() <= i16::MAX
    }

    open spec fn sub_spec(self, rhs: Self) -> Self {
        PodI16::from_value((self.spec_get() - rhs.spec_get()) as i16)
    }
}

impl From<i16> for PodI16 {
    fn from(v: i16) -> (r: Self) {
        PodI16 { value: v }
    }
}

impl vstd::std_specs::convert::FromSpecImpl<i16> for PodI16 {
    open spec fn obeys_from_spec() -> bool {
        true
    }

    open spec fn from_spec(v: i16) -> Self {
        PodI16::from_value(v)
    }
}

impl ZcElem for PodI16 {
    open spec fn spec_size() -> nat {
        2
    }

    closed spec fn encoded(self) -> Seq<u8> {
        le_bytes((self.value as u16) as nat, 2)
    }

    open spec fn spec_check(b: Seq<u8>) -> Option<ZeroPodError> {
        None
    }

    closed spec fn decoded(b: Seq<u8>) -> Self {
        PodI16 { value: (le_value(b) as u16) as i16 }
    }

    open spec fn layout_ok() -> bool {
        true
    }

    open spec fn valid(self) -> bool {
        true
    }

    proof fn lemma_size(v: Self) {
        lemma_le_bytes_len((v.value as u16) as nat, 2);
    }

    fn assert_valid(&self) {
    }

    proof fn lemma_codec(v: Self) {
        let x = v.value;
        let u = x as u16;
        lemma_le_bytes_len(u as nat, 2);
        reveal_with_fuel(pow256, 3);
        lemma_le_roundtrip(u as nat, 2);
        assert(((x as u16) as i16) == x) by (bit_vector);
    }

    fn size() -> (r: usize) {
        2
    }

    fn encode_into(&self, out: &mut Vec<u8>) {
        push_le(out, self.value as u16 as u64, 2);
    }

    fn check(b: &[u8]) -> (r: Option<ZeroPodError>) {
        None
    }

    fn zeroed() -> (r: Self) {
        proof {
            lemma_le_bytes_zero(2);
        }
        PodI16 { value: 0 }
    }

    fn decode(b: &[u8]) -> (r: Self) {
        let v = read_len(b, 0, 2);
        proof {
            assert(b@.subrange(0, 2) =~= b@);
            lemma_le_value_bound(b@);
            reveal_with_fuel(pow256, 3);
        }
        PodI16 { value: (v as u16) as i16 }
    }
}

/// A little-endian 32-bit signed integer.
#[derive(Clone, Copy, Debug, PartialEq, Eq, Structural)]
pub struct PodI32 {
    value: i32,
}

impl PodI32 {
    pub closed spec fn spec_get(self) -> i32 {
        self.value
    }

    pub closed spec fn from_value(v: i32) -> Self {
        PodI32 { value: v }
    }

    pub proof fn lemma_from_value(v: i32)
        ensures
            Self::from_value(v).spec_get() == v,
    {
    }

    pub fn get(&self) -> (r: i32)
        ensures
            r == self.spec_get(),
    {
        self.value
    }

    pub fn set(&mut self, v: i32)
        ensures
            final(self).spec_get() == v,
    {
        self.value = v;
    }

    /// The sum, or `None` when it does not fit.
    pub fn checked_add(self, rhs: Self) -> (r: Option<Self>)
        ensures
            r is Some <==> i32::MIN <= self.spec_get() + rhs.spec_get() <= i32::MAX,
            r matches Some(s) ==> s.spec_get() == self.spec_get() + rhs.spec_get(),
    {
        match self.value.checked_add(rhs.value) {
            Some(v) => Some(PodI32 { value: v }),
            None => None,
        }
    }

    /// The difference, or `None` when it does not fit.
    pub fn checked_sub(self, rhs: Self) -> (r: Option<Self>)
        ensures
            r is Some <==> i32::MIN <= self.spec_get() - rhs.spec_get() <= i32::MAX,
            r matches Some(s) ==> s.spec_get() == self.spec_get() - rhs.spec_get(),
    {
        match self.value.checked_sub(rhs.value) {
            Some(v) => Some(PodI32 { value: v }),
            None => None,
        }
    }

    /// The sum, wrapped around modulo 2^32.
    pub fn wrapping_add(self, rhs: Self) -> (r: Self)
        ensures
            r.spec_get() == (if self.spec_get() + rhs.spec_get() > i32::MAX {
                self.spec_get() + rhs.spec_get() - 0x100000000
            } else if self.spec_get() + rhs.spec_get() < i32::MIN {
                self.spec_get() + rhs.spec_get() + 0x100000000
            } else {
                self.spec_get() + rhs.spec_get()
            }),
    {
        PodI32 { value: self.value.wrapping_add(rhs.value) }
    }

    /// The difference, wrapped around modulo 2^32.
    pub fn wrapping_sub(self, rhs: Self) -> (r: Self)
        ensures
            r.spec_get() == (if self.spec_get() - rhs.spec_get() > i32::MAX {
                self.spec_get() - rhs.spec_get() - 0x100000000
            } else if self.spec_get() - rhs.spec_get() < i32::MIN {
                self.spec_get() - rhs.spec_get() + 0x100000000
            } else {
                self.spec_get() - rhs.spec_get()
            }),
    {
        PodI32 { value: self.value.wrapping_sub(rhs.value) }
    }
}

impl core::ops::Add for PodI32 {
    type Output = Self;

    /// The sum; like `+` on `i32`, it must fit.
    fn add(self, rhs: Self) -> (r: Self)
        ensures
            r.spec_get() == self.spec_get() + rhs.spec_get(),
    {
        PodI32 { value: self.value + rhs.value }
    }
}

impl vstd::std_specs::ops::AddSpecImpl for PodI32 {
    open spec fn obeys_add_spec() -> bool {
        true
    }

    open spec fn add_req(self, rhs: Self) -> bool {
        i32::MIN <= self.spec_get() + rhs.spec_get() <= i32::MAX
    }

    open spec fn add_spec(self, rhs: Self) -> Self {
        PodI32::from_value((self.spec_get() + rhs.spec_get()) as i32)
    }
}

impl core::ops::Sub for PodI32 {
    type Output = Self;

    /// The difference; like `-` on `i32`, it must fit.
    fn sub(self, rhs: Self) -> (r: Self)
        ensures
            r.spec_get() == self.spec_get() - rhs.spec_get(),
    {
        PodI32 { value: self.value - rhs.value }
    }
}

impl vstd::std_specs::ops::SubSpecImpl for PodI32 {
    open spec fn obeys_sub_spec() -> bool {
        true
    }

    open spec fn sub_req(self, rhs: Self) -> bool {
        i32::MIN <= self.spec_get() - rhs.spec_get() <= i32::MAX
    }

    open spec fn sub_spec(self, rhs: Self) -> Self {
        PodI32::from_value((self.spec_get() - rhs.spec_get()) as i32)
    }
}

impl From<i32> for PodI32 {
    fn from(v: i32) -> (r: Self) {
        PodI32 { value: v }
    }
}

impl vstd::std_specs::convert::FromSpecImpl<i32> for PodI32 {
    open spec fn obeys_from_spec() -> bool {
        true
    }

    open spec fn from_spec(v: i32) -> Self {
        PodI32::from_value(v)
    }
}

impl ZcElem for PodI32 {
    open spec fn spec_size() -> nat {
        4
    }

    closed spec fn encoded(self) -> Seq<u8> {
        le_bytes((self.value as u32) as nat, 4)
    }

    open spec fn spec_check(b: Seq<u8>) -> Option<ZeroPodError> {
        None
    }

    closed spec fn decoded(b: Seq<u8>) -> Self {
        PodI32 { value: (le_value(b) as u32) as i32 }
    }

    open spec fn layout_ok() -> bool {
        true
    }

    open spec fn valid(self) -> bool {
        true
    }

    proof fn lemma_size(v: Self) {
        lemma_le_bytes_len((v.value as u32) as nat, 4);
    }

    fn assert_valid(&self) {
    }

    proof fn lemma_codec(v: Self) {
        let x = v.value;
        let u = x as u32;
        lemma_le_bytes_len(u as nat, 4);
        reveal_with_fuel(pow256, 5);
        lemma_le_roundtrip(u as nat, 4);
        assert(((x as u32) as i32) == x) by (bit_vector);
    }

    fn size() -> (r: usize) {
        4
    }

    fn encode_into(&self, out: &mut Vec<u8>) {
        push_le(out, self.value as u32 as u64, 4);
    }

    fn check(b: &[u8]) -> (r: Option<ZeroPodError>) {
        None
    }

    fn zeroed() -> (r: Self) {
        proof {
            lemma_le_bytes_zero(4);
        }
        PodI32 { value: 0 }
    }

    fn decode(b: &[u8]) -> (r: Self) {
        let v = read_len(b, 0, 4);
        proof {
            assert(b@.subrange(0, 4) =~= b@);
            lemma_le_value_bound(b@);
            reveal_with_fuel(pow256, 5);
        }
        PodI32 { value: (v as u32) as i32 }
    }
}

/// A little-endian 64-bit signed integer.
#[derive(Clone, Copy, Debug, PartialEq, Eq, Structural)]
pub struct PodI64 {
    value: i64,
}

impl PodI64 {
    pub closed spec fn spec_get(self) -> i64 {
        self.value
    }

    pub closed spec fn from_value(v: i64) -> Self {
        PodI64 { value: v }
    }

    pub proof fn lemma_from_value(v: i64)
        ensures
            Self::from_value(v).spec_get() == v,
    {
    }

    pub fn get(&self) -> (r: i64)
        ensures
            r == self.spec_get(),
    {
        self.value
    }

    pub fn set(&mut self, v: i64)
        ensures
            final(self).spec_get() == v,
    {
        self.value = v;
    }

    /// The sum, or `None` when it does not fit.
    pub fn checked_add(self, rhs: Self) -> (r: Option<Self>)
        ensures
            r is Some <==> i64::MIN <= self.spec_get() + rhs.spec_get() <= i64::MAX,
            r matches Some(s) ==> s.spec_get() == self.spec_get() + rhs.spec_get(),
    {
        match self.value.checked_add(rhs.value) {
            Some(v) => Some(PodI64 { value: v }),
            None => None,
        }
    }

    /// The difference, or `None` when it does not fit.
    pub fn checked_sub(self, rhs: Self) -> (r: Option<Self>)
        ensures
            r is Some <==> i64::MIN <= self.spec_get() - rhs.spec_get() <= i64::MAX,
            r matches Some(s) ==> s.spec_get() == self.spec_get() - rhs.spec_get(),
    {
        match self.value.checked_sub(rhs.value) {
            Some(v) => Some(PodI64 { value: v }),
            None => None,
        }
    }

    /// The sum, wrapped around modulo 2^64.
    pub fn wrapping_add(self, rhs: Self) -> (r: Self)
        ensures
            r.spec_get() == (if self.spec_get() + rhs.spec_get() > i64::MAX {
                self.spec_get() + rhs.spec_get() - 0x10000000000000000
            } else if self.spec_get() + rhs.spec_get() < i64::MIN {
                self.spec_get() + rhs.spec_get() + 0x10000000000000000
            } else {
                self.spec_get() + rhs.spec_get()
            }),
    {
        PodI64 { value: self.value.wrapping_add(rhs.value) }
    }

    /// The difference, wrapped around modulo 2^64.
    pub fn wrapping_sub(self, rhs: Self) -> (r: Self)
        ensures
            r.spec_get() == (if self.spec_get() - rhs.spec_get() > i64::MAX {
                self.spec_get() - rhs.spec_get() - 0x10000000000000000
            } else if self.spec_get() - rhs.spec_get() < i64::MIN {
                self.spec_get() - rhs.spec_get() + 0x10000000000000000
            } else {
                self.spec_get() - rhs.spec_get()
            }),
    {
        PodI64 { value: self.value.wrapping_sub(rhs.value) }
    }
}

impl core::ops::Add for PodI64 {
    type Output = Self;

    /// The sum; like `+` on `i64`, it must fit.
    fn add(self, rhs: Self) -> (r: Self)
        ensures
            r.spec_get() == self.spec_get() + rhs.spec_get(),
    {
        PodI64 { value: self.value + rhs.value }
    }
}

impl vstd::std_specs::ops::AddSpecImpl for PodI64 {
    open spec fn obeys_add_spec() -> bool {
        true
    }

    open spec fn add_req(self, rhs: Self) -> bool {
        i64::MIN <= self.spec_get() + rhs.spec_get() <= i64::MAX
    }

    open spec fn add_spec(self, rhs: Self) -> Self {
        PodI64::from_value((self.spec_get() + rhs.spec_get()) as i64)
    }
}

impl core::ops::Sub for PodI64 {
    type Output = Self;

    /// The difference; like `-` on `i64`, it must fit.
    fn sub(self, rhs: Self) -> (r: Self)
        ensures
            r.spec_get() == self.spec_get() - rhs.spec_get(),
    {
        PodI64 { value: self.value - rhs.value }
    }
}

impl vstd::std_specs::ops::SubSpecImpl for PodI64 {
    open spec fn obeys_sub_spec() -> bool {
        true
    }

    open spec fn sub_req(self, rhs: Self) -> bool {
        i64::MIN <= self.spec_get() - rhs.spec_get() <= i64::MAX
    }

    open spec fn sub_spec(self, rhs: Self) -> Self {
        PodI64::from_value((self.spec_get() - rhs.spec_get()) as i64)
    }
}

impl From<i64> for PodI64 {
    fn from(v: i64) -> (r: Self) {
        PodI64 { value: v }
    }
}

impl vstd::std_specs::convert::FromSpecImpl<i64> for PodI64 {
    open spec fn obeys_from_spec() -> bool {
        true
    }

    open spec fn from_spec(v: i64) -> Self {
        PodI64::from_value(v)
    }
}

impl ZcElem for PodI64 {
    open spec fn spec_size() -> nat {
        8
    }

    closed spec fn encoded(self) -> Seq<u8> {
        le_bytes((self.value as u64) as nat, 8)
    }

    open spec fn spec_check(b: Seq<u8>) -> Option<ZeroPodError> {
        None
    }

    closed spec fn decoded(b: Seq<u8>) -> Self {
        PodI64 { value: (le_value(b) as u64) as i64 }
    }

    open spec fn layout_ok() -> bool {
        true
    }

    open spec fn valid(self) -> bool {
        true
    }

    proof fn lemma_size(v: Self) {
        lemma_le_bytes_len((v.value as u64) as nat, 8);
    }

    fn assert_valid(&self) {
    }

    proof fn lemma_codec(v: Self) {
        let x = v.value;
        let u = x as u64;
        lemma_le_bytes_len(u as nat, 8);
        reveal_with_fuel(pow256, 9);
        lemma_le_roundtrip(u as nat, 8);
        assert(((x as u64) as i64) == x) by (bit_vector);
    }

    fn size() -> (r: usize) {
        8
    }

    fn encode_into(&self, out: &mut Vec<u8>) {
        push_le(out, self.value as u64 as u64, 8);
    }

    fn check(b: &[u8]) -> (r: Option<ZeroPodError>) {
        None
    }

    fn zeroed() -> (r: Self) {
        proof {
            lemma_le_bytes_zero(8);
        }
        PodI64 { value: 0 }
    }

    fn decode(b: &[u8]) -> (r: Self) {
        let v = read_len(b, 0, 8);
        proof {
            assert(b@.subrange(0, 8) =~= b@);
            lemma_le_value_bound(b@);
            reveal_with_fuel(pow256, 9);
        }
        PodI64 { value: (v as u64) as i64 }
    }
}

/// A little-endian 128-bit signed integer.
#[derive(Clone, Copy, Debug, PartialEq, Eq, Structural)]
pub struct PodI128 {
    value: i128,
}

impl PodI128 {
    pub closed spec fn spec_get(self) -> i128 {
        self.value
    }

    pub closed spec fn from_value(v: i128) -> Self {
        PodI128 { value: v }
    }

    pub proof fn lemma_from_value(v: i128)
        ensures
            Self::from_value(v).spec_get() == v,
    {
    }

    pub fn get(&self) -> (r: i128)
        ensures
            r == self.spec_get(),
    {
        self.value
    }

    pub fn set(&mut self, v: i128)
        ensures
            final(self).spec_get() == v,
    {
        self.value = v;
    }

    /// The sum, or `None` when it does not fit.
    pub fn checked_add(self, rhs: Self) -> (r: Option<Self>)
        ensures
            r is Some <==> i128::MIN <= self.spec_get() + rhs.spec_get() <= i128::MAX,
            r matches Some(s) ==> s.spec_get() == self.spec_get() + rhs.spec_get(),
    {
        match self.value.checked_add(rhs.value) {
            Some(v) => Some(PodI128 { value: v }),
            None => None,
        }
    }

    /// The difference, or `None` when it does not fit.
    pub fn checked_sub(self, rhs: Self) -> (r: Option<Self>)
        ensures
            r is Some <==> i128::MIN <= self.spec_get() - rhs.spec_get() <= i128::MAX,
            r matches Some(s) ==> s.spec_get() == self.spec_get() - rhs.spec_get(),
    {
        match self.value.checked_sub(rhs.value) {
            Some(v) => Some(PodI128 { value: v }),
            None => None,
        }
    }

    /// The sum, wrapped around modulo 2^128.
    pub fn wrapping_add(self, rhs: Self) -> (r: Self)
        ensures
            r.spec_get() == (if self.spec_get() + rhs.spec_get() > i128::MAX {
                self.spec_get() + rhs.spec_get() - 0x100000000000000000000000000000000
            } else if self.spec_get() + rhs.spec_get() < i128::MIN {
                self.spec_get() + rhs.spec_get() + 0x100000000000000000000000000000000
            } else {
                self.spec_get() + rhs.spec_get()
            }),
    {
        PodI128 { value: self.value.wrapping_add(rhs.value) }
    }

    /// The difference, wrapped around modulo 2^128.
    pub fn wrapping_sub(self, rhs: Self) -> (r: Self)
        ensures
            r.spec_get() == (if self.spec_get() - rhs.spec_get() > i128::MAX {
                self.spec_get() - rhs.spec_get() - 0x100000000000000000000000000000000
            } else if self.spec_get() - rhs.spec_get() < i128::MIN {
                self.spec_get() - rhs.spec_get() + 0x100000000000000000000000000000000
            } else {
                self.spec_get() - rhs.spec_get()
            }),
    {
        PodI128 { value: self.value.wrapping_sub(rhs.value) }
    }
}

impl core::ops::Add for PodI128 {
    type Output = Self;

    /// The sum; like `+` on `i128`, it must fit.
    fn add(self, rhs: Self) -> (r: Self)
        ensures
            r.spec_get() == self.spec_get() + rhs.spec_get(),
    {
        PodI128 { value: self.value + rhs.value }
    }
}

impl vstd::std_specs::ops::AddSpecImpl for PodI128 {
    open spec fn obeys_add_spec() -> bool {
        true
    }

    open spec fn add_req(self, rhs: Self) -> bool {
        i128::MIN <= self.spec_get() + rhs.spec_get() <= i128::MAX
    }

    open spec fn add_spec(self, rhs: Self) -> Self {
        PodI128::from_value((self.spec_get() + rhs.spec_get()) as i128)
    }
}

impl core::ops::Sub for PodI128 {
    type Output = Self;

    /// The difference; like `-` on `i128`, it must fit.
    fn sub(self, rhs: Self) -> (r: Self)
        ensures
            r.spec_get() == self.spec_get() - rhs.spec_get(),
    {
        PodI128 { value: self.value - rhs.value }
    }
}

impl vstd::std_specs::ops::SubSpecImpl for PodI128 {
    open spec fn obeys_sub_spec() -> bool {
        true
    }

    open spec fn sub_req(self, rhs: Self) -> bool {
        i128::MIN <= self.spec_get() - rhs.spec_get() <= i128::MAX
    }

    open spec fn sub_spec(self, rhs: Self) -> Self {
        PodI128::from_value((self.spec_get() - rhs.spec_get()) as i128)
    }
}

impl From<i128> for PodI128 {
    fn from(v: i128) -> (r: Self) {
        PodI128 { value: v }
    }
}

impl vstd::std_specs::convert::FromSpecImpl<i128> for PodI128 {
    open spec fn obeys_from_spec() -> bool {
        true
    }

    open spec fn from_spec(v: i128) -> Self {
        PodI128::from_value(v)
    }
}

impl ZcElem for PodI128 {
    open spec fn spec_size() -> nat {
        16
    }

    closed spec fn encoded(self) -> Seq<u8> {
        le_bytes((self.value as u128) as nat, 16)
    }

    open spec fn spec_check(b: Seq<u8>) -> Option<ZeroPodError> {
        None
    }

    closed spec fn decoded(b: Seq<u8>) -> Self {
        PodI128 { value: (le_value(b) as u128) as i128 }
    }

    open spec fn layout_ok() -> bool {
        true
    }

    open spec fn valid(self) -> bool {
        true
    }

    proof fn lemma_size(v: Self) {
        lemma_le_bytes_len((v.value as u128) as nat, 16);
    }

    fn assert_valid(&self) {
    }

    proof fn lemma_codec(v: Self) {
        let x = v.value;
        let u = x as u128;
        lemma_le_bytes_len(u as nat, 16);
        reveal_with_fuel(pow256, 17);
        lemma_le_roundtrip(u as nat, 16);
        assert(((x as u128) as i128) == x) by (bit_vector);
    }

    fn size() -> (r: usize) {
        16
    }

    fn encode_into(&self, out: &mut Vec<u8>) {
        push_le_wide(out, self.value as u128, 16);
    }

    fn check(b: &[u8]) -> (r: Option<ZeroPodError>) {
        None
    }

    fn zeroed() -> (r: Self) {
        proof {
            lemma_le_bytes_zero(16);
        }
        PodI128 { value: 0 }
    }

    fn decode(b: &[u8]) -> (r: Self) {
        let v = read_le_wide(b, 0, 16);
        proof {
            assert(b@.subrange(0, 16) =~= b@);
            lemma_le_value_bound(b@);
            reveal_with_fuel(pow256, 17);
        }
        PodI128 { value: (v as u128) as i128 }
    }
}

} // verus!
