//! The binary envelope: a tag/length/value wire format with two record shapes,
//! a single byte blob (`SerializedStuff`) and a pair of nested blobs that
//! carries an identity (`AsymmetricKey`).
use vstd::prelude::*;

verus! {

/// Base-128 encoding of `n`, least significant group first; every byte but
/// the last has its high bit set.
pub open spec fn varint(n: nat) -> Seq<u8>
    decreases n,
{
    if n < 128 {
        seq![n as u8]
    } else {
        seq![(n % 128 + 128) as u8] + varint(n / 128)
    }
}

/// Reads a varint of at most ten bytes starting at `i`, having already read
/// `count` groups worth `acc`; `scale` is the weight of the next group.
/// Yields the value and the position just after the varint.
pub open spec fn varint_from(s: Seq<u8>, i: int, acc: nat, scale: nat, count: nat) -> Option<(nat, int)>
    decreases 10 - count,
{
    if count >= 10 || i < 0 || i >= s.len() {
        None
    } else if s[i] < 128 {
        Some(((acc + s[i] * scale) as nat, i + 1))
    } else {
        varint_from(s, i + 1, (acc + (s[i] - 128) * scale) as nat, scale * 128, count + 1)
    }
}

pub open spec fn read_varint(s: Seq<u8>, i: int) -> Option<(nat, int)> {
    varint_from(s, i, 0, 1, 0)
}

proof fn lemma_varint_from_advances(s: Seq<u8>, i: int, acc: nat, scale: nat, count: nat)
    requires
        varint_from(s, i, acc, scale, count) is Some,
    ensures
        i < varint_from(s, i, acc, scale, count).unwrap().1 <= s.len(),
    decreases 10 - count,
{
    if s[i] >= 128 {
        lemma_varint_from_advances(s, i + 1, (acc + (s[i] - 128) * scale) as nat, scale * 128, count + 1);
    }
}

/// Reads a varint of at most ten bytes from `data` at `pos`.
pub fn read_varint_at(data: &[u8], pos: usize) -> (r: Option<(u128, usize)>)
    ensures
        r is None <==> read_varint(data@, pos as int) is None,
        r matches Some((v, j)) ==> read_varint(data@, pos as int) == Some((v as nat, j as int)),
{
    let mut i: usize = pos;
    let mut acc: u128 = 0;
    let mut scale: u128 = 1;
    let mut count: usize = 0;
    while count < 10 && i < data.len()
        invariant
            0 <= count <= 10,
            i == pos + count,
            scale == pow128(count as nat),
            acc < scale,
            read_varint(data@, pos as int) == varint_from(data@, i as int, acc as nat, scale as nat, count as nat),
        decreases 10 - count,
    {
        let b = data[i];
        proof { lemma_pow128_bound(count as nat); }
        if b < 128 {
            assert(acc + b * scale < pow128(10)) by (nonlinear_arith)
                requires acc < scale, b < 128, scale <= pow128(9), pow128(10) == 128 * pow128(9);
            return Some((acc + (b as u128) * scale, i + 1));
        }
        assert(acc + (b - 128) * scale < 128 * scale) by (nonlinear_arith)
            requires acc < scale, 128 <= b < 256;
        acc = acc + ((b - 128) as u128) * scale;
        scale = scale * 128;
        i = i + 1;
        count = count + 1;
    }
    None
}

pub open spec fn pow128(n: nat) -> nat
    decreases n,
{
    if n == 0 { 1 } else { 128 * pow128((n - 1) as nat) }
}

proof fn lemma_pow128_bound(n: nat)
    requires
        n <= 10,
    ensures
        pow128(n) <= pow128(10),
        pow128(10) == 128 * pow128(9),
        pow128(10) < 0x1_0000_0000_0000_0000_0000,
        n < 10 ==> pow128(n) <= pow128(9),
    decreases 10 - n,
{
    reveal_with_fuel(pow128, 11);
    if n < 10 {
        lemma_pow128_bound(n + 1);
    }
}


/// The bounds `[a, b)` of a value of wire type `wt` (varint, fixed64,
/// length-delimited or fixed32) that starts at `j`; for a length-delimited
/// value, the bytes after the length. `None` for any other wire type.
pub open spec fn value_at(s: Seq<u8>, j: int, wt: nat) -> Option<(int, int)> {
    if wt == 0 {
        match read_varint(s, j) {
            Some((_, k)) => Some((j, k)),
            None => None,
        }
    } else if wt == 1 {
        if j + 8 <= s.len() { Some((j, j + 8)) } else { None }
    } else if wt == 2 {
        match read_varint(s, j) {
            Some((n, k)) => if k + n <= s.len() { Some((k, k + n)) } else { None },
            None => None,
        }
    } else if wt == 5 {
        if j + 4 <= s.len() { Some((j, j + 4)) } else { None }
    } else {
        None
    }
}

proof fn lemma_value_at_advances(s: Seq<u8>, j: int, wt: nat)
    requires
        value_at(s, j, wt) is Some,
    ensures
        j <= value_at(s, j, wt).unwrap().0 <= value_at(s, j, wt).unwrap().1 <= s.len(),
        j < value_at(s, j, wt).unwrap().1,
{
    if wt == 0 || wt == 2 {
        lemma_varint_from_advances(s, j, 0, 1, 0);
    }
}

/// The position just after the end-group tag that closes a group whose
/// fields start at `j`. Every field inside is skipped; an end-group tag of
/// any field number closes the group, and a group nested inside is not
/// accepted.
pub open spec fn group_end(s: Seq<u8>, j: int) -> Option<int>
    decreases s.len() - j,
    via group_end_decreases
{
    match read_varint(s, j) {
        None => None,
        Some((tag, k)) => if tag / 8 == 0 {
            None
        } else if tag % 8 == 4 {
            Some(k)
        } else {
            match value_at(s, k, tag % 8) {
                Some((_, e)) => group_end(s, e),
                None => None,
            }
        },
    }
}

#[via_fn]
proof fn group_end_decreases(s: Seq<u8>, j: int) {
    if read_varint(s, j) is Some {
        lemma_varint_from_advances(s, j, 0, 1, 0);
        let (tag, k) = read_varint(s, j).unwrap();
        if value_at(s, k, tag % 8) is Some {
            lemma_value_at_advances(s, k, tag % 8);
        }
    }
}

proof fn lemma_group_end_advances(s: Seq<u8>, j: int)
    requires
        group_end(s, j) is Some,
    ensures
        j < group_end(s, j).unwrap() <= s.len(),
    decreases s.len() - j,
{
    lemma_varint_from_advances(s, j, 0, 1, 0);
    let (tag, k) = read_varint(s, j).unwrap();
    if tag % 8 != 4 {
        lemma_value_at_advances(s, k, tag % 8);
        lemma_group_end_advances(s, value_at(s, k, tag % 8).unwrap().1);
    }
}

/// The field that starts at `i`: its number, its wire type, and the bounds
/// `[a, b)` of its value (for a length-delimited field, the bytes after the
/// length; for a group, its fields and the tag that closes it). A lone
/// end-group tag is not accepted.
pub open spec fn read_field(s: Seq<u8>, i: int) -> Option<(nat, nat, int, int)> {
    match read_varint(s, i) {
        None => None,
        Some((tag, j)) => {
            let f = tag / 8;
            let wt = tag % 8;
            if f == 0 {
                None
            } else if wt == 3 {
                match group_end(s, j) {
                    Some(e) => Some((f, wt, j, e)),
                    None => None,
                }
            } else {
                match value_at(s, j, wt) {
                    Some((a, b)) => Some((f, wt, a, b)),
                    None => None,
                }
            }
        },
    }
}

proof fn lemma_read_field_advances(s: Seq<u8>, i: int)
    requires
        read_field(s, i) is Some,
    ensures
        i < read_field(s, i).unwrap().2 <= read_field(s, i).unwrap().3 <= s.len(),
{
    lemma_varint_from_advances(s, i, 0, 1, 0);
    let (tag, j) = read_varint(s, i).unwrap();
    if tag % 8 == 3 {
        lemma_group_end_advances(s, j);
    } else {
        lemma_value_at_advances(s, j, tag % 8);
    }
}

/// The content of a blob record read from position `i` on, where `cur` is the
/// content read so far: the last `content` field wins, other fields are
/// skipped.
pub open spec fn blob_from(s: Seq<u8>, i: int, cur: Seq<u8>) -> Option<Seq<u8>>
    decreases s.len() - i,
    via blob_from_decreases
{
    if i >= s.len() {
        Some(cur)
    } else {
        match read_field(s, i) {
            None => None,
            Some((f, wt, a, b)) => if f == 1 {
                if wt == 2 { blob_from(s, b, s.subrange(a, b)) } else { None }
            } else {
                blob_from(s, b, cur)
            },
        }
    }
}

#[via_fn]
proof fn blob_from_decreases(s: Seq<u8>, i: int, cur: Seq<u8>) {
    if i < s.len() && read_field(s, i) is Some {
        lemma_read_field_advances(s, i);
    }
}

/// Decoding of a blob record; an absent `content` field reads as empty.
pub open spec fn decode_blob(s: Seq<u8>) -> Option<Seq<u8>> {
    blob_from(s, 0, Seq::empty())
}

pub open spec fn or_empty(o: Option<Seq<u8>>) -> Seq<u8> {
    match o {
        Some(c) => c,
        None => Seq::empty(),
    }
}

/// The two fields of an identity record read from position `i` on. A nested
/// record that occurs again is merged into what was read before it.
pub open spec fn key_from(s: Seq<u8>, i: int, k: KeyRecord) -> Option<KeyRecord>
    decreases s.len() - i,
    via key_from_decreases
{
    if i >= s.len() {
        Some(k)
    } else {
        match read_field(s, i) {
            None => None,
            Some((f, wt, a, b)) => if f == 1 || f == 2 {
                if wt != 2 {
                    None
                } else if f == 1 {
                    match blob_from(s.subrange(a, b), 0, or_empty(k.0)) {
                        Some(c) => key_from(s, b, (Some(c), k.1)),
                        None => None,
                    }
                } else {
                    match blob_from(s.subrange(a, b), 0, or_empty(k.1)) {
                        Some(c) => key_from(s, b, (k.0, Some(c))),
                        None => None,
                    }
                }
            } else {
                key_from(s, b, k)
            },
        }
    }
}

#[via_fn]
proof fn key_from_decreases(s: Seq<u8>, i: int, k: KeyRecord) {
    if i < s.len() && read_field(s, i) is Some {
        lemma_read_field_advances(s, i);
    }
}

/// An identity record: the secret and the public key, each present or not.
pub type KeyRecord = (Option<Seq<u8>>, Option<Seq<u8>>);

pub open spec fn decode_key(s: Seq<u8>) -> Option<KeyRecord> {
    key_from(s, 0, (None, None))
}

/// A length-delimited field: its tag, the length of `payload`, then `payload`.
pub open spec fn field(tag: nat, payload: Seq<u8>) -> Seq<u8> {
    varint(tag) + varint(payload.len()) + payload
}

/// Wire form of a blob: empty content is left out entirely.
pub open spec fn encode_blob(c: Seq<u8>) -> Seq<u8> {
    if c.len() == 0 { Seq::empty() } else { field(CONTENT_TAG as nat, c) }
}

pub open spec fn optional_field(tag: nat, c: Option<Seq<u8>>) -> Seq<u8> {
    match c {
        Some(c) => field(tag, encode_blob(c)),
        None => Seq::empty(),
    }
}

/// Wire form of an identity record: the secret, then the public key, each
/// only where present.
pub open spec fn encode_key(k: KeyRecord) -> Seq<u8> {
    optional_field(SECRET_TAG as nat, k.0) + optional_field(PUBLIC_KEY_TAG as nat, k.1)
}

/// Field 1, length-delimited.
pub const CONTENT_TAG: u8 = 10;

/// Field 1, length-delimited.
pub const SECRET_TAG: u8 = 10;

/// Field 2, length-delimited.
pub const PUBLIC_KEY_TAG: u8 = 18;


/// Finds the bounds of a value of wire type `wt` at `j`; see `value_at`.
fn value_at_pos(data: &[u8], j: usize, wt: u128) -> (r: Option<(usize, usize)>)
    ensures
        r is None <==> value_at(data@, j as int, wt as nat) is None,
        r matches Some((a, b)) ==> value_at(data@, j as int, wt as nat) == Some((a as int, b as int)),
{
    if wt == 0 {
        match read_varint_at(data, j) {
            Some((_, k)) => Some((j, k)),
            None => None,
        }
    } else if wt == 1 {
        if j <= data.len() && data.len() - j >= 8 { Some((j, j + 8)) } else { None }
    } else if wt == 2 {
        match read_varint_at(data, j) {
            Some((n, k)) => {
                proof { lemma_varint_from_advances(data@, j as int, 0, 1, 0); }
                if n <= (data.len() - k) as u128 {
                    Some((k, k + n as usize))
                } else {
                    None
                }
            },
            None => None,
        }
    } else if wt == 5 {
        if j <= data.len() && data.len() - j >= 4 { Some((j, j + 4)) } else { None }
    } else {
        None
    }
}

/// Skips the fields of a group that start at `start`; see `group_end`.
fn group_end_at(data: &[u8], start: usize) -> (r: Option<usize>)
    ensures
        r is None <==> group_end(data@, start as int) is None,
        r matches Some(e) ==> group_end(data@, start as int) == Some(e as int),
{
    let mut j: usize = start;
    loop
        invariant
            start <= j,
            group_end(data@, start as int) == group_end(data@, j as int),
        decreases data@.len() - j,
    {
        let (tag, k) = match read_varint_at(data, j) {
            None => return None,
            Some(t) => t,
        };
        proof { lemma_varint_from_advances(data@, j as int, 0, 1, 0); }
        if tag / 8 == 0 {
            return None;
        }
        if tag % 8 == 4 {
            return Some(k);
        }
        match value_at_pos(data, k, tag % 8) {
            Some((_, e)) => {
                proof { lemma_value_at_advances(data@, k as int, (tag % 8) as nat); }
                j = e;
            },
            None => return None,
        }
    }
}

/// Reads the field that starts at `pos`; see `read_field`.
fn read_field_at(data: &[u8], pos: usize) -> (r: Option<(u128, u128, usize, usize)>)
    ensures
        r is None <==> read_field(data@, pos as int) is None,
        r matches Some((f, wt, a, b)) ==> read_field(data@, pos as int) == Some(
            (f as nat, wt as nat, a as int, b as int),
        ),
{
    let (tag, j) = match read_varint_at(data, pos) {
        None => return None,
        Some(t) => t,
    };
    let f = tag / 8;
    let wt = tag % 8;
    if f == 0 {
        None
    } else if wt == 3 {
        match group_end_at(data, j) {
            Some(e) => Some((f, wt, j, e)),
            None => None,
        }
    } else {
        match value_at_pos(data, j, wt) {
            Some((a, b)) => Some((f, wt, a, b)),
            None => None,
        }
    }
}

/// A copy of `data[a..b]`.
fn copy_range(data: &[u8], a: usize, b: usize) -> (r: Vec<u8>)
    requires
        a <= b <= data@.len(),
    ensures
        r@ == data@.subrange(a as int, b as int),
{
    let mut r: Vec<u8> = Vec::new();
    let mut i: usize = a;
    while i < b
        invariant
            a <= i <= b <= data@.len(),
            r@ == data@.subrange(a as int, i as int),
        decreases b - i,
    {
        r.push(data[i]);
        i = i + 1;
    }
    r
}

/// Reads a blob record from `data`, starting from the content `cur`.
fn merge_blob(data: &[u8], cur: Vec<u8>) -> (r: Option<Vec<u8>>)
    ensures
        r is None <==> blob_from(data@, 0, cur@) is None,
        r matches Some(c) ==> blob_from(data@, 0, cur@) == Some(c@),
{
    let mut content = cur;
    let mut pos: usize = 0;
    while pos < data.len()
        invariant
            pos <= data@.len(),
            blob_from(data@, 0, cur@) == blob_from(data@, pos as int, content@),
        decreases data@.len() - pos,
    {
        match read_field_at(data, pos) {
            None => return None,
            Some((f, wt, a, b)) => {
                proof { lemma_read_field_advances(data@, pos as int); }
                if f == 1 {
                    if wt != 2 {
                        return None;
                    }
                    content = copy_range(data, a, b);
                }
                pos = b;
            },
        }
    }
    Some(content)
}


/// Appends the varint encoding of `n` to `out`.
fn write_varint(out: &mut Vec<u8>, n: usize)
    ensures
        final(out)@ == old(out)@ + varint(n as nat),
{
    let mut m: usize = n;
    while m >= 128
        invariant
            old(out)@ + varint(n as nat) == out@ + varint(m as nat),
        decreases m,
    {
        let b: u8 = (m % 128 + 128) as u8;
        assert(varint(m as nat) == seq![b] + varint((m / 128) as nat));
        assert(out@ + varint(m as nat) == out@.push(b) + varint((m / 128) as nat));
        out.push(b);
        m = m / 128;
    }
    assert(varint(m as nat) == seq![m as u8]);
    out.push(m as u8);
}

/// Appends a copy of `data` to `out`.
fn push_all(out: &mut Vec<u8>, data: &[u8])
    ensures
        final(out)@ == old(out)@ + data@,
{
    let mut i: usize = 0;
    while i < data.len()
        invariant
            i <= data@.len(),
            out@ == old(out)@ + data@.subrange(0, i as int),
        decreases data@.len() - i,
    {
        assert(data@.subrange(0, i + 1) == data@.subrange(0, i as int).push(data@[i as int]));
        out.push(data[i]);
        i = i + 1;
    }
    assert(data@.subrange(0, data@.len() as int) == data@);
}

/// The bytes of `field(tag, payload)`, or `None` where they would not fit in
/// memory.
fn field_bytes(tag: u8, payload: &[u8]) -> (r: Option<Vec<u8>>)
    ensures
        r is Some <==> field(tag as nat, payload@).len() <= usize::MAX,
        r matches Some(v) ==> v@ == field(tag as nat, payload@),
{
    let mut out: Vec<u8> = Vec::new();
    write_varint(&mut out, tag as usize);
    write_varint(&mut out, payload.len());
    if out.len() > usize::MAX - payload.len() {
        return None;
    }
    push_all(&mut out, payload);
    Some(out)
}

/// The blob record with the given content.
#[derive(Debug, PartialEq, Eq, Clone)]
pub struct SerializedStuff {
    pub content: Vec<u8>,
}

impl View for SerializedStuff {
    type V = Seq<u8>;

    open spec fn view(&self) -> Seq<u8> {
        self.content@
    }
}

impl SerializedStuff {
    pub fn new() -> (r: SerializedStuff)
        ensures
            r@ == Seq::<u8>::empty(),
    {
        SerializedStuff { content: Vec::new() }
    }

    pub fn get_content(&self) -> (r: &[u8])
        ensures
            r@ == self@,
    {
        self.content.as_slice()
    }

    pub fn clear_content(&mut self)
        ensures
            final(self)@ == Seq::<u8>::empty(),
    {
        self.content.clear();
    }

    pub fn set_content(&mut self, v: Vec<u8>)
        ensures
            final(self)@ == v@,
    {
        self.content = v;
    }

    /// The content, to change in place.
    pub fn mut_content(&mut self) -> (r: &mut Vec<u8>)
        ensures
            r@ == old(self)@,
            final(self)@ == final(r)@,
    {
        &mut self.content
    }

    /// Moves the content out, leaving it empty.
    pub fn take_content(&mut self) -> (r: Vec<u8>)
        ensures
            r@ == old(self)@,
            final(self)@ == Seq::<u8>::empty(),
    {
        let mut r: Vec<u8> = Vec::new();
        std::mem::swap(&mut r, &mut self.content);
        r
    }

    /// The wire form of this record, or `None` where it would not fit in
    /// memory.
    pub fn write_to_bytes(&self) -> (r: Option<Vec<u8>>)
        ensures
            r is Some <==> encode_blob(self@).len() <= usize::MAX,
            r matches Some(v) ==> v@ == encode_blob(self@),
    {
        if self.content.len() == 0 {
            Some(Vec::new())
        } else {
            field_bytes(CONTENT_TAG, self.content.as_slice())
        }
    }

    /// Reads a blob record; fails on malformed input.
    pub fn parse_from_bytes(data: &[u8]) -> (r: Option<SerializedStuff>)
        ensures
            r is None <==> decode_blob(data@) is None,
            r matches Some(x) ==> decode_blob(data@) == Some(x@),
    {
        match merge_blob(data, Vec::new()) {
            Some(content) => Some(SerializedStuff { content }),
            None => None,
        }
    }
}


/// The identity record: a secret and a public key, each a nested blob record
/// that is present or not. An absent one reads as an empty blob.
#[derive(Debug, PartialEq, Eq)]
pub struct AsymmetricKey {
    secret: SerializedStuff,
    has_secret: bool,
    public_key: SerializedStuff,
    has_public_key: bool,
}

impl View for AsymmetricKey {
    type V = KeyRecord;

    closed spec fn view(&self) -> KeyRecord {
        (
            if self.has_secret { Some(self.secret@) } else { None },
            if self.has_public_key { Some(self.public_key@) } else { None },
        )
    }
}

impl AsymmetricKey {
    #[verifier::type_invariant]
    spec fn absent_is_empty(&self) -> bool {
        &&& (!self.has_secret ==> self.secret@.len() == 0)
        &&& (!self.has_public_key ==> self.public_key@.len() == 0)
    }

    pub fn new() -> (r: AsymmetricKey)
        ensures
            r@ == (None::<Seq<u8>>, None::<Seq<u8>>),
    {
        AsymmetricKey {
            secret: SerializedStuff::new(),
            has_secret: false,
            public_key: SerializedStuff::new(),
            has_public_key: false,
        }
    }

    /// The secret, or an empty blob where it is absent.
    pub fn get_secret(&self) -> (r: &SerializedStuff)
        ensures
            r@ == or_empty(self@.0),
    {
        proof { use_type_invariant(self); }
        &self.secret
    }

    pub fn clear_secret(&mut self)
        ensures
            final(self)@ == (None::<Seq<u8>>, old(self)@.1),
    {
        proof { use_type_invariant(&*self); }
        self.secret = SerializedStuff::new();
        self.has_secret = false;
    }

    pub fn has_secret(&self) -> (r: bool)
        ensures
            r == self@.0 is Some,
    {
        self.has_secret
    }

    pub fn set_secret(&mut self, v: SerializedStuff)
        ensures
            final(self)@ == (Some(v@), old(self)@.1),
    {
        proof { use_type_invariant(&*self); }
        self.has_secret = true;
        self.secret = v;
    }

    /// Moves the secret out (an empty blob where it is absent), leaving it
    /// absent.
    pub fn take_secret(&mut self) -> (r: SerializedStuff)
        ensures
            r@ == or_empty(old(self)@.0),
            final(self)@ == (None::<Seq<u8>>, old(self)@.1),
    {
        proof { use_type_invariant(&*self); }
        let mut r = SerializedStuff::new();
        std::mem::swap(&mut r, &mut self.secret);
        self.has_secret = false;
        r
    }

    /// The public key, or an empty blob where it is absent.
    pub fn get_public_key(&self) -> (r: &SerializedStuff)
        ensures
            r@ == or_empty(self@.1),
    {
        proof { use_type_invariant(self); }
        &self.public_key
    }

    pub fn clear_public_key(&mut self)
        ensures
            final(self)@ == (old(self)@.0, None::<Seq<u8>>),
    {
        proof { use_type_invariant(&*self); }
        self.public_key = SerializedStuff::new();
        self.has_public_key = false;
    }

    pub fn has_public_key(&self) -> (r: bool)
        ensures
            r == self@.1 is Some,
    {
        self.has_public_key
    }

    pub fn set_public_key(&mut self, v: SerializedStuff)
        ensures
            final(self)@ == (old(self)@.0, Some(v@)),
    {
        proof { use_type_invariant(&*self); }
        self.has_public_key = true;
        self.public_key = v;
    }

    /// Moves the public key out (an empty blob where it is absent), leaving it
    /// absent.
    pub fn take_public_key(&mut self) -> (r: SerializedStuff)
        ensures
            r@ == or_empty(old(self)@.1),
            final(self)@ == (old(self)@.0, None::<Seq<u8>>),
    {
        proof { use_type_invariant(&*self); }
        let mut r = SerializedStuff::new();
        std::mem::swap(&mut r, &mut self.public_key);
        self.has_public_key = false;
        r
    }

    /// The wire form of this record, or `None` where it would not fit in
    /// memory.
    pub fn write_to_bytes(&self) -> (r: Option<Vec<u8>>)
        ensures
            r is Some <==> encode_key(self@).len() <= usize::MAX,
            r matches Some(v) ==> v@ == encode_key(self@),
    {
        let mut out: Vec<u8> = Vec::new();
        if self.has_secret {
            let inner = match self.secret.write_to_bytes() {
                Some(v) => v,
                None => return None,
            };
            out = match field_bytes(SECRET_TAG, inner.as_slice()) {
                Some(v) => v,
                None => return None,
            };
        }
        assert(out@ == optional_field(SECRET_TAG as nat, self@.0));
        if self.has_public_key {
            let inner = match self.public_key.write_to_bytes() {
                Some(v) => v,
                None => return None,
            };
            let second = match field_bytes(PUBLIC_KEY_TAG, inner.as_slice()) {
                Some(v) => v,
                None => return None,
            };
            if out.len() > usize::MAX - second.len() {
                return None;
            }
            push_all(&mut out, second.as_slice());
        }
        assert(out@ == encode_key(self@));
        Some(out)
    }

    /// Reads an identity record; fails on malformed input, in either nested
    /// record too.
    pub fn parse_from_bytes(data: &[u8]) -> (r: Option<AsymmetricKey>)
        ensures
            r is None <==> decode_key(data@) is None,
            r matches Some(x) ==> decode_key(data@) == Some(x@),
    {
        let mut secret: Vec<u8> = Vec::new();
        let mut has_secret = false;
        let mut public_key: Vec<u8> = Vec::new();
        let mut has_public_key = false;
        let mut pos: usize = 0;
        while pos < data.len()
            invariant
                pos <= data@.len(),
                !has_secret ==> secret@.len() == 0,
                !has_public_key ==> public_key@.len() == 0,
                decode_key(data@) == key_from(
                    data@,
                    pos as int,
                    (
                        if has_secret { Some(secret@) } else { None },
                        if has_public_key { Some(public_key@) } else { None },
                    ),
                ),
            decreases data@.len() - pos,
        {
            match read_field_at(data, pos) {
                None => return None,
                Some((f, wt, a, b)) => {
                    proof { lemma_read_field_advances(data@, pos as int); }
                    if f == 1 || f == 2 {
                        if wt != 2 {
                            return None;
                        }
                        let payload = copy_range(data, a, b);
                        assert(secret@ =~= or_empty(if has_secret { Some(secret@) } else { None }));
                        assert(public_key@ =~= or_empty(
                            if has_public_key { Some(public_key@) } else { None },
                        ));
                        if f == 1 {
                            secret = match merge_blob(payload.as_slice(), secret) {
                                Some(c) => c,
                                None => return None,
                            };
                            has_secret = true;
                        } else {
                            public_key = match merge_blob(payload.as_slice(), public_key) {
                                Some(c) => c,
                                None => return None,
                            };
                            has_public_key = true;
                        }
                    }
                    pos = b;
                },
            }
        }
        Some(
            AsymmetricKey {
                secret: SerializedStuff { content: secret },
                has_secret,
                public_key: SerializedStuff { content: public_key },
                has_public_key,
            },
        )
    }
}


proof fn lemma_varint_len_below(n: nat, k: nat)
    requires
        1 <= k,
        n < pow128(k),
    ensures
        1 <= varint(n).len() <= k,
    decreases n,
{
    if n >= 128 {
        let p = pow128((k - 1) as nat);
        assert(k >= 2) by {
            if k == 1 {
                assert(pow128(1) == 128 * pow128(0));
            }
        }
        assert(n / 128 < p) by (nonlinear_arith)
            requires n < 128 * p;
        lemma_varint_len_below(n / 128, (k - 1) as nat);
    }
}

/// The length of the wire form of a blob of `n` bytes.
pub open spec fn blob_len(n: nat) -> nat {
    if n == 0 { 0 } else { 1 + varint(n).len() + n }
}

/// A larger number never takes fewer bytes as a varint.
proof fn lemma_varint_len_monotone(a: nat, b: nat)
    requires
        a <= b,
    ensures
        varint(a).len() <= varint(b).len(),
    decreases b,
{
    if a >= 128 {
        lemma_varint_len_monotone(a / 128, b / 128);
    }
}

/// A blob no longer than another has a wire form no longer than the other's.
pub proof fn lemma_blob_len_monotone(a: nat, b: nat)
    requires
        a <= b,
    ensures
        blob_len(a) <= blob_len(b),
{
    lemma_varint_len_monotone(a, b);
}

/// A number below 2^70 takes at most ten bytes as a varint.
proof fn lemma_varint_len(n: nat)
    requires
        n < 0x40_0000_0000_0000_0000,
    ensures
        1 <= varint(n).len() <= 10,
{
    reveal_with_fuel(pow128, 11);
    assert(pow128(10) == 0x40_0000_0000_0000_0000);
    lemma_varint_len_below(n, 10);
}

proof fn lemma_varint_read(s: Seq<u8>, i: int, n: nat, acc: nat, scale: nat, count: nat)
    requires
        0 <= i,
        i + varint(n).len() <= s.len(),
        s.subrange(i, i + varint(n).len()) == varint(n),
        count + varint(n).len() <= 10,
    ensures
        varint_from(s, i, acc, scale, count) == Some(((acc + n * scale) as nat, i + varint(n).len())),
    decreases n,
{
    assert(s[i] == s.subrange(i, i + varint(n).len())[0]);
    if n >= 128 {
        let m = n / 128;
        let lm = varint(m).len() as int;
        assert(s.subrange(i + 1, i + 1 + lm) == s.subrange(i, i + varint(n).len()).subrange(1, 1 + lm));
        assert(varint(n).subrange(1, 1 + lm) == varint(m));
        let acc2 = (acc + (n % 128) * scale) as nat;
        lemma_varint_read(s, i + 1, m, acc2, scale * 128, count + 1);
        assert(acc2 + m * (scale * 128) == acc + n * scale) by (nonlinear_arith)
            requires acc2 == acc + (n % 128) * scale, m == n / 128, n == 128 * (n / 128) + n % 128;
    }
}

/// The field `field(tag, p)` laid at `i` in `s` reads back with its value
/// bounds.
proof fn lemma_read_field(s: Seq<u8>, i: int, tag: nat, p: Seq<u8>)
    requires
        0 <= i,
        i + field(tag, p).len() <= s.len(),
        s.subrange(i, i + field(tag, p).len()) == field(tag, p),
        8 <= tag < 128,
        tag % 8 == 2,
        p.len() < 0x40_0000_0000_0000_0000,
    ensures
        read_field(s, i) == Some(
            (
                tag / 8,
                2nat,
                i + 1 + varint(p.len()).len(),
                i + field(tag, p).len(),
            ),
        ),
        s.subrange(i + 1 + varint(p.len()).len(), i + field(tag, p).len()) == p,
{
    let f = field(tag, p);
    let lv = varint(p.len()).len() as int;
    lemma_varint_len(p.len());
    assert(varint(tag) == seq![tag as u8]);
    assert(s.subrange(i, i + 1) == f.subrange(0, 1));
    assert(f.subrange(0, 1) == varint(tag));
    lemma_varint_read(s, i, tag, 0, 1, 0);
    assert(s.subrange(i + 1, i + 1 + lv) == f.subrange(1, 1 + lv));
    assert(f.subrange(1, 1 + lv) == varint(p.len()));
    lemma_varint_read(s, i + 1, p.len(), 0, 1, 0);
    assert(s.subrange(i + 1 + lv, i + f.len()) == f.subrange(1 + lv, f.len() as int));
    assert(f.subrange(1 + lv, f.len() as int) == p);
}

/// Decoding a blob's wire form gives back the blob.
pub proof fn lemma_blob_round_trip(c: Seq<u8>)
    requires
        c.len() <= usize::MAX,
    ensures
        decode_blob(encode_blob(c)) == Some(c),
        encode_blob(c).len() == blob_len(c.len()),
{
    let s = encode_blob(c);
    if c.len() > 0 {
        assert(s.subrange(0, s.len() as int) =~= s);
        lemma_read_field(s, 0, CONTENT_TAG as nat, c);
        lemma_varint_len(c.len());
        assert(blob_from(s, s.len() as int, c) == Some(c));
    } else {
        assert(s.len() == 0);
    }
}

/// Decoding an identity record's wire form gives back the record.
pub proof fn lemma_key_round_trip(k: KeyRecord)
    requires
        or_empty(k.0).len() <= usize::MAX,
        or_empty(k.1).len() <= usize::MAX,
    ensures
        decode_key(encode_key(k)) == Some(k),
{
    let s = encode_key(k);
    let f1 = optional_field(SECRET_TAG as nat, k.0);
    let f2 = optional_field(PUBLIC_KEY_TAG as nat, k.1);
    let mid = (if k.0 is Some { k.0 } else { None::<Seq<u8>> }, None::<Seq<u8>>);
    if let Some(c) = k.0 {
        let e = encode_blob(c);
        lemma_blob_round_trip(c);
        lemma_varint_len(c.len());
        assert(s.subrange(0, f1.len() as int) == f1);
        lemma_read_field(s, 0, SECRET_TAG as nat, e);
        assert(key_from(s, 0, (None, None)) == key_from(s, f1.len() as int, mid));
    }
    assert(key_from(s, 0, (None, None)) == key_from(s, f1.len() as int, mid));
    if let Some(c) = k.1 {
        let e = encode_blob(c);
        lemma_blob_round_trip(c);
        lemma_varint_len(c.len());
        assert(s.subrange(f1.len() as int, s.len() as int) == f2);
        lemma_read_field(s, f1.len() as int, PUBLIC_KEY_TAG as nat, e);
        assert(key_from(s, f1.len() as int, mid) == key_from(s, s.len() as int, k));
    }
    assert(key_from(s, f1.len() as int, mid) == key_from(s, s.len() as int, k));
}

} // verus!
