use vstd::prelude::*;
use vstd::utf8::encode_utf8;
use crate::hex::hex_fixed;
use crate::hex::parse_radix16;
use crate::hex::radix16_digits;
use crate::hex::pow16;
use crate::hex::parse_hex_u128;
use crate::hex::push_hex_fixed;
use crate::hex::lemma_hex_fixed_shape;
use crate::hex::lemma_hex_fixed_value;
use crate::hex::lemma_pow16_values;
use crate::chars::chars_of;
use crate::chars::string_from_chars;
use crate::chars::to_lowercase;
use crate::chars::unicode_lowercase;
use crate::chars::is_ascii_seq;
use crate::chars::ascii_lower;

verus! {

broadcast use vstd::string::group_string_axioms;

/// Address of a node of the knowledge graph.
///
/// Documents are numbered with `U32`; a concept found in a document gets the
/// document's number shifted left by 32 bits with the concept's index in the low
/// bits, one width up; tags and keywords get a hash of their name.
#[derive(Clone, Debug, PartialEq, Eq, Hash)]
pub enum NodeId {
    U32(u32),
    U64(u64),
    U128(u128),
    Chunked(Vec<u32>),
}

/// The mathematical value of a `NodeId`.
pub ghost enum NodeIdView {
    U32(u32),
    U64(u64),
    U128(u128),
    Chunked(Seq<u32>),
}

impl View for NodeId {
    type V = NodeIdView;

    open spec fn view(&self) -> NodeIdView {
        match self {
            NodeId::U32(n) => NodeIdView::U32(*n),
            NodeId::U64(n) => NodeIdView::U64(*n),
            NodeId::U128(n) => NodeIdView::U128(*n),
            NodeId::Chunked(c) => NodeIdView::Chunked(c@),
        }
    }
}

/// The kind of entity a node stands for.
#[derive(Clone, Copy, Debug, PartialEq, Eq, Structural)]
pub enum NodeKind {
    Document,
    Concept,
    Tag,
    Keyword,
}

// ----------------------------------------------------------------------------
// Specifications
// ----------------------------------------------------------------------------

/// The four 32-bit words of a `u128`, most significant first.
pub open spec fn u128_words(d: u128) -> Seq<u32> {
    seq![
        ((d >> 96u128) & 0xFFFF_FFFFu128) as u32,
        ((d >> 64u128) & 0xFFFF_FFFFu128) as u32,
        ((d >> 32u128) & 0xFFFF_FFFFu128) as u32,
        (d & 0xFFFF_FFFFu128) as u32,
    ]
}

/// The address of the `local`-th concept below `parent`.
pub open spec fn concept_id(parent: NodeIdView, local: u32) -> NodeIdView {
    match parent {
        NodeIdView::U32(d) => NodeIdView::U64((d * 0x1_0000_0000 + local) as u64),
        NodeIdView::U64(d) => NodeIdView::U128((d * 0x1_0000_0000 + local) as u128),
        NodeIdView::U128(d) => NodeIdView::Chunked(u128_words(d).push(local)),
        NodeIdView::Chunked(c) => NodeIdView::Chunked(c.push(local)),
    }
}

/// The address that a 64-bit hash stands for: `U32` when it fits in 32 bits.
pub open spec fn id_from_hash(h: u64) -> NodeIdView {
    if h < 0x1_0000_0000 {
        NodeIdView::U32(h as u32)
    } else {
        NodeIdView::U64(h)
    }
}

/// What the standard library's `DefaultHasher` (created by `DefaultHasher::new`)
/// finishes with after hashing a string slice with these characters.
pub uninterp spec fn std_default_hash(s: Seq<char>) -> u64;

/// The key that is hashed for a named node: `prefix`, a colon, and the lower-cased name.
pub open spec fn prefixed_key(prefix: Seq<char>, name: Seq<char>) -> Seq<char> {
    prefix + seq![':'] + unicode_lowercase(name)
}

/// The address of a named node (a tag or a keyword).
pub open spec fn named_id(prefix: Seq<char>, name: Seq<char>) -> NodeIdView {
    id_from_hash(std_default_hash(prefixed_key(prefix, name)))
}

/// The address of a named node whose name is ASCII: the hash of the prefix, `:`
/// and the ASCII lower-case form of the name.
pub open spec fn named_id_ascii(prefix: Seq<char>, name: Seq<char>) -> NodeIdView {
    id_from_hash(std_default_hash(prefix + seq![':'] + ascii_lower(name)))
}

pub open spec fn tag_id(name: Seq<char>) -> NodeIdView {
    named_id("tag"@, name)
}

pub open spec fn keyword_id(name: Seq<char>) -> NodeIdView {
    named_id("kw"@, name)
}

/// The eight-digit hexadecimal form of each chunk, joined by `_`.
pub open spec fn join_hex(c: Seq<u32>) -> Seq<char>
    decreases c.len(),
{
    if c.len() == 0 {
        seq![]
    } else if c.len() == 1 {
        hex_fixed(c[0] as nat, 8)
    } else {
        join_hex(c.drop_last()) + seq!['_'] + hex_fixed(c.last() as nat, 8)
    }
}

/// The text form of an address: zero-padded lower-case hexadecimal of width 8, 16
/// or 32, or the chunks of width 8 joined by `_`.
pub open spec fn hex_string(id: NodeIdView) -> Seq<char> {
    match id {
        NodeIdView::U32(n) => hex_fixed(n as nat, 8),
        NodeIdView::U64(n) => hex_fixed(n as nat, 16),
        NodeIdView::U128(n) => hex_fixed(n as nat, 32),
        NodeIdView::Chunked(c) => join_hex(c),
    }
}

/// The pieces of `s` between occurrences of `sep` (one more piece than there are separators).
pub open spec fn split_on(s: Seq<char>, sep: char) -> Seq<Seq<char>>
    decreases s.len(),
{
    if s.len() == 0 {
        seq![seq![]]
    } else {
        let r = split_on(s.drop_last(), sep);
        if s.last() == sep {
            r.push(seq![])
        } else {
            r.update(r.len() - 1, r.last().push(s.last()))
        }
    }
}

/// The pieces that parse as a hexadecimal `u32`, parsed; the others are dropped.
pub open spec fn parse_chunks(pieces: Seq<Seq<char>>) -> Seq<u32>
    decreases pieces.len(),
{
    if pieces.len() == 0 {
        seq![]
    } else {
        let r = parse_chunks(pieces.drop_last());
        match parse_radix16(pieces.last(), 0x1_0000_0000) {
            Some(v) => r.push(v as u32),
            None => r,
        }
    }
}

pub open spec fn parse_or_zero(s: Seq<char>, bound: nat) -> nat {
    match parse_radix16(s, bound) {
        Some(v) => v,
        None => 0,
    }
}

/// The address that a text denotes: chunks when it holds `_`, otherwise the width
/// is chosen by the length of the text in UTF-8 bytes, as a `usize` (at most 8, at
/// most 16, longer),
/// and a text that does not parse gives zero.
pub open spec fn parse_node_id_spec(s: Seq<char>) -> NodeIdView {
    if s.contains('_') {
        NodeIdView::Chunked(parse_chunks(split_on(s, '_')))
    } else if encode_utf8(s).len() as usize <= 8 {
        NodeIdView::U32(parse_or_zero(s, 0x1_0000_0000) as u32)
    } else if encode_utf8(s).len() as usize <= 16 {
        NodeIdView::U64(parse_or_zero(s, 0x1_0000_0000_0000_0000) as u64)
    } else {
        NodeIdView::U128(parse_or_zero(s, u128::MAX as nat + 1) as u128)
    }
}

/// The kind that the bits of a 32-bit id select: the mask of the two top bits is
/// compared with `0`, `0x1000_0000` and `0x2000_0000`, of which only `0` can occur,
/// so an id below `0x4000_0000` is a document and any other a keyword.
pub open spec fn kind_of_id(id: u32) -> NodeKind {
    if id < 0x4000_0000 {
        NodeKind::Document
    } else {
        NodeKind::Keyword
    }
}

/// The kind read from an address: from its low 32 bits, or its first chunk.
pub open spec fn node_kind(id: NodeIdView) -> NodeKind {
    match id {
        NodeIdView::U32(n) => kind_of_id(n),
        NodeIdView::U64(n) => kind_of_id((n % 0x1_0000_0000) as u32),
        NodeIdView::U128(n) => kind_of_id((n % 0x1_0000_0000) as u32),
        NodeIdView::Chunked(c) => if c.len() == 0 {
            NodeKind::Document
        } else {
            kind_of_id(c[0])
        },
    }
}

pub open spec fn kind_name(k: NodeKind) -> Seq<char> {
    match k {
        NodeKind::Document => "Document"@,
        NodeKind::Concept => "Concept"@,
        NodeKind::Tag => "Tag"@,
        NodeKind::Keyword => "Keyword"@,
    }
}

// ----------------------------------------------------------------------------
// Trusted items
// ----------------------------------------------------------------------------

/// Trusted: hashes the string slice with `std::hash::Hash` into a fresh
/// `DefaultHasher::new()` and returns `Hasher::finish`. The standard library
/// documents that hashers made by `DefaultHasher::new` all give the same result for
/// the same input; the algorithm is not documented and may change between releases
/// of the standard library, so the name stands for the result of one build.
#[verifier::external_body]
fn default_hash_str(s: &str) -> (h: u64)
    ensures
        h == std_default_hash(s@),
{
    let mut hasher = std::collections::hash_map::DefaultHasher::new();
    std::hash::Hash::hash(s, &mut hasher);
    std::hash::Hasher::finish(&hasher)
}

// ----------------------------------------------------------------------------
// Executable functions
// ----------------------------------------------------------------------------

impl NodeKind {
    /// The kind for the two top bits of a 32-bit id (see `kind_of_id`).
    pub fn from_id(id: u32) -> (k: NodeKind)
        ensures
            k == kind_of_id(id),
    {
        assert((id & 0xC000_0000u32) != 0x1000_0000u32 && (id & 0xC000_0000u32) != 0x2000_0000u32
            && ((id & 0xC000_0000u32) == 0u32 <==> id < 0x4000_0000u32)) by (bit_vector);
        match id & 0xC000_0000 {
            0 => NodeKind::Document,
            0x1000_0000 => NodeKind::Concept,
            0x2000_0000 => NodeKind::Tag,
            _ => NodeKind::Keyword,
        }
    }

    /// The name of the kind, as it is displayed.
    pub fn display_name(&self) -> (s: String)
        ensures
            s@ == kind_name(*self),
    {
        match self {
            NodeKind::Document => String::from_str("Document"),
            NodeKind::Concept => String::from_str("Concept"),
            NodeKind::Tag => String::from_str("Tag"),
            NodeKind::Keyword => String::from_str("Keyword"),
        }
    }
}

/// Whether the character occurs in the sequence.
pub fn contains_char(v: &Vec<char>, c: char) -> (r: bool)
    ensures
        r == v@.contains(c),
{
    let mut i: usize = 0;
    while i < v.len()
        invariant
            i <= v.len(),
            forall|k: int| 0 <= k < i ==> v@[k] != c,
        decreases v.len() - i,
    {
        if v[i] == c {
            return true;
        }
        i = i + 1;
    }
    false
}

/// Radix-16 parsing of a `u32`, the way `u32::from_str_radix(s, 16)` reads `s`.
pub fn parse_hex_u32(s: &Vec<char>) -> (r: Option<u32>)
    ensures
        match parse_radix16(s@, 0x1_0000_0000) {
            Some(v) => r == Some(v as u32),
            None => r is None,
        },
{
    match parse_hex_u128(s) {
        Some(v) => if v < 0x1_0000_0000 {
            Some(v as u32)
        } else {
            None
        },
        None => None,
    }
}

/// The address that a text denotes (see `parse_node_id_spec`); this is how an
/// address is read back from its text form.
pub fn parse_node_id(s: &str) -> (id: NodeId)
    ensures
        id@ == parse_node_id_spec(s@),
{
    let cs = chars_of(s);
    if contains_char(&cs, '_') {
        let mut out: Vec<u32> = Vec::new();
        let mut cur: Vec<char> = Vec::new();
        let n = cs.len();
        let mut i: usize = 0;
        proof {
            assert(cs@.take(0) =~= Seq::<char>::empty());
        }
        while i < n
            invariant
                n == cs.len(),
                i <= n,
                out@ == parse_chunks(split_on(cs@.take(i as int), '_').drop_last()),
                cur@ == split_on(cs@.take(i as int), '_').last(),
                split_on(cs@.take(i as int), '_').len() >= 1,
            decreases n - i,
        {
            let ghost pre = cs@.take(i as int);
            let ghost next = cs@.take(i + 1);
            assert(next.drop_last() =~= pre);
            assert(next.last() == cs@[i as int]);
            if cs[i] == '_' {
                assert(split_on(next, '_').drop_last() =~= split_on(pre, '_'));
                assert(split_on(pre, '_') =~= split_on(pre, '_').drop_last().push(cur@));
                match parse_hex_u32(&cur) {
                    Some(v) => out.push(v),
                    None => {},
                }
                cur = Vec::new();
            } else {
                assert(split_on(next, '_').drop_last() =~= split_on(pre, '_').drop_last());
                cur.push(cs[i]);
            }
            i = i + 1;
        }
        proof {
            assert(cs@.take(n as int) =~= cs@);
            let p = split_on(cs@, '_');
            assert(p =~= p.drop_last().push(cur@));
        }
        match parse_hex_u32(&cur) {
            Some(v) => out.push(v),
            None => {},
        }
        NodeId::Chunked(out)
    } else {
        let blen = s.len();
        assert(blen == encode_utf8(s@).len() as usize);
        assert(!s@.contains('_'));
        if blen <= 8 {
            match parse_hex_u128(&cs) {
                Some(v) => if v < 0x1_0000_0000 {
                    NodeId::U32(v as u32)
                } else {
                    NodeId::U32(0)
                },
                None => NodeId::U32(0),
            }
        } else if blen <= 16 {
            match parse_hex_u128(&cs) {
                Some(v) => if v < 0x1_0000_0000_0000_0000 {
                    NodeId::U64(v as u64)
                } else {
                    NodeId::U64(0)
                },
                None => NodeId::U64(0),
            }
        } else {
            match parse_hex_u128(&cs) {
                Some(v) => NodeId::U128(v),
                None => NodeId::U128(0),
            }
        }
    }
}

impl NodeId {
    /// The address of the `doc_index`-th document.
    pub fn new_document(doc_index: u32) -> (id: NodeId)
        ensures
            id@ == NodeIdView::U32(doc_index),
    {
        NodeId::U32(doc_index)
    }

    /// The address of the `local_index`-th concept below `doc_id`.
    pub fn new_concept(doc_id: &NodeId, local_index: u32) -> (id: NodeId)
        ensures
            id@ == concept_id(doc_id@, local_index),
    {
        match doc_id {
            NodeId::U32(d) => {
                let d64: u64 = *d as u64;
                let l64: u64 = local_index as u64;
                assert((d64 << 32u64) | l64 == d64 * 0x1_0000_0000u64 + l64) by (bit_vector)
                    requires
                        d64 < 0x1_0000_0000u64,
                        l64 < 0x1_0000_0000u64,
                ;
                let shifted = d64 << 32;
                NodeId::U64(shifted | l64)
            },
            NodeId::U64(d) => {
                let d128: u128 = *d as u128;
                let l128: u128 = local_index as u128;
                assert((d128 << 32u128) | l128 == d128 * 0x1_0000_0000u128 + l128) by (bit_vector)
                    requires
                        d128 < 0x1_0000_0000_0000_0000u128,
                        l128 < 0x1_0000_0000u128,
                ;
                let shifted = d128 << 32;
                NodeId::U128(shifted | l128)
            },
            NodeId::U128(d) => {
                let mut c: Vec<u32> = Vec::new();
                c.push(((*d >> 96) & 0xFFFF_FFFF) as u32);
                c.push(((*d >> 64) & 0xFFFF_FFFF) as u32);
                c.push(((*d >> 32) & 0xFFFF_FFFF) as u32);
                c.push((*d & 0xFFFF_FFFF) as u32);
                c.push(local_index);
                assert(c@ =~= u128_words(*d).push(local_index));
                NodeId::Chunked(c)
            },
            NodeId::Chunked(c) => {
                let mut new_chunk = c.clone();
                new_chunk.push(local_index);
                assert(new_chunk@ =~= c@.push(local_index));
                NodeId::Chunked(new_chunk)
            },
        }
    }

    /// The address of the tag with this name (case does not matter).
    pub fn new_tag(name: &str) -> (id: NodeId)
        ensures
            id@ == tag_id(name@),
            is_ascii_seq(name@) ==> id@ == named_id_ascii("tag"@, name@),
    {
        Self::from_string_prefixed("tag", name)
    }

    /// The address of the keyword with this name (case does not matter).
    pub fn new_keyword(name: &str) -> (id: NodeId)
        ensures
            id@ == keyword_id(name@),
            is_ascii_seq(name@) ==> id@ == named_id_ascii("kw"@, name@),
    {
        Self::from_string_prefixed("kw", name)
    }

    /// The address for `prefix:lower-cased name`, from its 64-bit hash.
    pub fn from_string_prefixed(prefix: &str, name: &str) -> (id: NodeId)
        ensures
            id@ == named_id(prefix@, name@),
            is_ascii_seq(name@) ==> id@ == named_id_ascii(prefix@, name@),
    {
        let lower = to_lowercase(name);
        let mut key = String::from_str(prefix);
        key.append(":");
        key.append(lower.as_str());
        proof {
            reveal_strlit(":");
            assert(key@ =~= prefixed_key(prefix@, name@));
        }
        let hash = default_hash_str(key.as_str());
        assert((hash >> 32u64 == 0u64) <==> hash < 0x1_0000_0000u64) by (bit_vector);
        if hash >> 32 == 0 {
            NodeId::U32(hash as u32)
        } else {
            NodeId::U64(hash)
        }
    }

    /// The text form of the address (see `hex_string`).
    pub fn to_hex_string(&self) -> (s: String)
        ensures
            s@ == hex_string(self@),
    {
        let mut v: Vec<char> = Vec::new();
        match self {
            NodeId::U32(n) => {
                push_hex_fixed(&mut v, *n as u128, 8);
            },
            NodeId::U64(n) => {
                push_hex_fixed(&mut v, *n as u128, 16);
            },
            NodeId::U128(n) => {
                push_hex_fixed(&mut v, *n, 32);
            },
            NodeId::Chunked(c) => {
                let mut i: usize = 0;
                while i < c.len()
                    invariant
                        i <= c.len(),
                        v@ == join_hex(c@.take(i as int)),
                    decreases c.len() - i,
                {
                    let ghost before = v@;
                    if i > 0 {
                        v.push('_');
                    }
                    push_hex_fixed(&mut v, c[i] as u128, 8);
                    proof {
                        let t = c@.take(i + 1);
                        assert(t.drop_last() =~= c@.take(i as int));
                        if i == 0 {
                            assert(v@ =~= join_hex(t));
                        } else {
                            assert(v@ =~= join_hex(t));
                        }
                    }
                    i = i + 1;
                }
                assert(c@.take(c.len() as int) =~= c@);
            },
        }
        string_from_chars(&v)
    }

    /// The kind of node the address belongs to (see `node_kind`).
    pub fn kind(&self) -> (k: NodeKind)
        ensures
            k == node_kind(self@),
    {
        match self {
            NodeId::U32(n) => NodeKind::from_id(*n),
            NodeId::U64(n) => {
                let x: u64 = *n;
                assert((x as u32) == ((x % 0x1_0000_0000u64) as u32)) by (bit_vector);
                NodeKind::from_id(*n as u32)
            },
            NodeId::U128(n) => {
                let x: u128 = *n;
                assert((x as u32) == ((x % 0x1_0000_0000u128) as u32)) by (bit_vector);
                NodeKind::from_id(*n as u32)
            },
            NodeId::Chunked(c) => {
                if c.len() > 0 {
                    NodeKind::from_id(c[0])
                } else {
                    NodeKind::Document
                }
            },
        }
    }

    /// A copy of the address.
    pub fn duplicate(&self) -> (r: NodeId)
        ensures
            r@ == self@,
    {
        match self {
            NodeId::U32(n) => NodeId::U32(*n),
            NodeId::U64(n) => NodeId::U64(*n),
            NodeId::U128(n) => NodeId::U128(*n),
            NodeId::Chunked(c) => {
                let mut d: Vec<u32> = Vec::new();
                let mut i: usize = 0;
                while i < c.len()
                    invariant
                        i <= c.len(),
                        d@ == c@.take(i as int),
                    decreases c.len() - i,
                {
                    d.push(c[i]);
                    assert(d@ =~= c@.take(i + 1));
                    i = i + 1;
                }
                assert(d@ =~= c@);
                NodeId::Chunked(d)
            },
        }
    }

    /// Whether two addresses are the same.
    pub fn same_as(&self, other: &NodeId) -> (r: bool)
        ensures
            r == (self@ == other@),
    {
        match (self, other) {
            (NodeId::U32(a), NodeId::U32(b)) => *a == *b,
            (NodeId::U64(a), NodeId::U64(b)) => *a == *b,
            (NodeId::U128(a), NodeId::U128(b)) => *a == *b,
            (NodeId::Chunked(a), NodeId::Chunked(b)) => {
                if a.len() != b.len() {
                    assert(a@.len() != b@.len());
                    return false;
                }
                let mut i: usize = 0;
                while i < a.len()
                    invariant
                        i <= a.len(),
                        a.len() == b.len(),
                        self@ == NodeIdView::Chunked(a@),
                        other@ == NodeIdView::Chunked(b@),
                        forall|k: int| 0 <= k < i ==> a@[k] == b@[k],
                    decreases a.len() - i,
                {
                    if a[i] != b[i] {
                        assert(a@[i as int] != b@[i as int]);
                        return false;
                    }
                    i = i + 1;
                }
                assert(a@ =~= b@);
                true
            },
            _ => false,
        }
    }
}

} // verus!

verus! {

// ----------------------------------------------------------------------------
// Laws
// ----------------------------------------------------------------------------

/// A text of ASCII characters takes one UTF-8 byte per character.
pub proof fn lemma_ascii_utf8_len(s: Seq<char>)
    requires
        forall|i: int| 0 <= i < s.len() ==> (#[trigger] s[i] as u32) < 128,
    ensures
        encode_utf8(s).len() == s.len(),
    decreases s.len(),
{
    if s.len() > 0 {
        assert forall|i: int| 0 <= i < s.drop_first().len() implies (
        #[trigger] s.drop_first()[i] as u32) < 128 by {
            assert(s.drop_first()[i] == s[i + 1]);
        }
        lemma_ascii_utf8_len(s.drop_first());
        assert((s[0] as u32) < 128);
    }
}

proof fn lemma_hex_fixed_ascii(v: nat, w: nat)
    ensures
        encode_utf8(hex_fixed(v, w)).len() == w,
        !hex_fixed(v, w).contains('_'),
{
    lemma_hex_fixed_shape(v, w);
    let s = hex_fixed(v, w);
    lemma_ascii_utf8_len(s);
    if s.contains('_') {
        let i = choose|i: int| 0 <= i < s.len() && s[i] == '_';
        assert(s[i] != '_');
    }
}

proof fn lemma_hex_fixed_parses(v: nat, w: nat, bound: nat)
    requires
        w > 0,
        v < pow16(w),
        v < bound,
    ensures
        parse_radix16(hex_fixed(v, w), bound) == Some(v),
{
    lemma_hex_fixed_shape(v, w);
    lemma_hex_fixed_value(v, w);
    let s = hex_fixed(v, w);
    assert(s[0] != '+');
    assert(radix16_digits(s) == s);
    vstd::arithmetic::div_mod::lemma_small_mod(v, pow16(w));
}

proof fn lemma_split_plain(a: Seq<char>, b: Seq<char>, sep: char)
    requires
        !b.contains(sep),
    ensures
        split_on(a + b, sep) == split_on(a, sep).update(
            split_on(a, sep).len() - 1,
            split_on(a, sep).last() + b,
        ),
        split_on(a, sep).len() >= 1,
    decreases b.len(),
{
    lemma_split_len(a, sep);
    if b.len() == 0 {
        assert(a + b =~= a);
        assert(split_on(a, sep).last() + b =~= split_on(a, sep).last());
        assert(split_on(a, sep).update(split_on(a, sep).len() - 1, split_on(a, sep).last())
            =~= split_on(a, sep));
    } else {
        let b1 = b.drop_last();
        assert(!b1.contains(sep)) by {
            if b1.contains(sep) {
                let i = choose|i: int| 0 <= i < b1.len() && b1[i] == sep;
                assert(b[i] == sep);
            }
        }
        lemma_split_plain(a, b1, sep);
        assert((a + b).drop_last() =~= a + b1);
        assert((a + b).last() == b.last());
        assert(b.last() != sep) by {
            assert(b[b.len() - 1] == b.last());
        }
        lemma_split_len(a + b1, sep);
        let r = split_on(a, sep);
        assert(split_on(a + b, sep) =~= r.update(r.len() - 1, r.last() + b)) by {
            assert(r.last() + b1 + seq![b.last()] =~= r.last() + b);
            assert(b1.push(b.last()) =~= b);
        }
    }
}

proof fn lemma_split_len(s: Seq<char>, sep: char)
    ensures
        split_on(s, sep).len() >= 1,
    decreases s.len(),
{
    if s.len() > 0 {
        lemma_split_len(s.drop_last(), sep);
    }
}

proof fn lemma_split_after_sep(a: Seq<char>, b: Seq<char>, sep: char)
    requires
        !b.contains(sep),
    ensures
        split_on(a + seq![sep] + b, sep) == split_on(a, sep).push(b),
{
    let a1 = a + seq![sep];
    lemma_split_plain(a1, b, sep);
    assert(a1.drop_last() =~= a);
    assert(a1.last() == sep);
    lemma_split_len(a, sep);
    let r = split_on(a, sep);
    assert(split_on(a1, sep) == r.push(seq![]));
    assert(seq![] + b =~= b);
    assert(r.push(seq![]).update(r.len() as int, seq![] + b) =~= r.push(b));
}

pub open spec fn hex8_pieces(c: Seq<u32>) -> Seq<Seq<char>> {
    c.map_values(|x: u32| hex_fixed(x as nat, 8))
}

proof fn lemma_split_join(c: Seq<u32>)
    requires
        c.len() >= 1,
    ensures
        split_on(join_hex(c), '_') == hex8_pieces(c),
    decreases c.len(),
{
    if c.len() == 1 {
        lemma_hex_fixed_ascii(c[0] as nat, 8);
        lemma_split_plain(seq![], hex_fixed(c[0] as nat, 8), '_');
        assert(Seq::<char>::empty() + hex_fixed(c[0] as nat, 8) =~= hex_fixed(c[0] as nat, 8));
        assert(split_on(Seq::<char>::empty(), '_') == seq![Seq::<char>::empty()]);
        assert(hex8_pieces(c) =~= seq![hex_fixed(c[0] as nat, 8)]);
        assert(seq![Seq::<char>::empty()].update(0, Seq::<char>::empty() + hex_fixed(c[0] as nat, 8))
            =~= seq![hex_fixed(c[0] as nat, 8)]);
    } else {
        lemma_split_join(c.drop_last());
        lemma_hex_fixed_ascii(c.last() as nat, 8);
        lemma_split_after_sep(join_hex(c.drop_last()), hex_fixed(c.last() as nat, 8), '_');
        assert(hex8_pieces(c) =~= hex8_pieces(c.drop_last()).push(hex_fixed(c.last() as nat, 8)));
    }
}

proof fn lemma_parse_hex8_pieces(c: Seq<u32>)
    ensures
        parse_chunks(hex8_pieces(c)) == c,
    decreases c.len(),
{
    if c.len() > 0 {
        lemma_parse_hex8_pieces(c.drop_last());
        assert(hex8_pieces(c).drop_last() =~= hex8_pieces(c.drop_last()));
        lemma_pow16_values();
        lemma_hex_fixed_parses(c.last() as nat, 8, 0x1_0000_0000);
        assert(c.drop_last().push(c.last()) =~= c);
    }
}

proof fn lemma_join_has_sep(c: Seq<u32>)
    requires
        c.len() >= 2,
    ensures
        join_hex(c).contains('_'),
{
    let a = join_hex(c.drop_last());
    let s = a + seq!['_'] + hex_fixed(c.last() as nat, 8);
    assert(s[a.len() as int] == '_');
}

/// Reading back the text form of an address gives the address again, for every
/// address but a chunked one of fewer than two chunks (a single chunk reads back as
/// `U32`, no chunk as `U32(0)`).
pub proof fn lemma_hex_string_round_trip(id: NodeIdView)
    requires
        id is Chunked ==> id->Chunked_0.len() >= 2,
    ensures
        parse_node_id_spec(hex_string(id)) == id,
{
    lemma_pow16_values();
    match id {
        NodeIdView::U32(n) => {
            lemma_hex_fixed_ascii(n as nat, 8);
            lemma_hex_fixed_parses(n as nat, 8, 0x1_0000_0000);
        },
        NodeIdView::U64(n) => {
            lemma_hex_fixed_ascii(n as nat, 16);
            lemma_hex_fixed_parses(n as nat, 16, 0x1_0000_0000_0000_0000);
        },
        NodeIdView::U128(n) => {
            lemma_hex_fixed_ascii(n as nat, 32);
            lemma_hex_fixed_parses(n as nat, 32, u128::MAX as nat + 1);
        },
        NodeIdView::Chunked(c) => {
            lemma_join_has_sep(c);
            lemma_split_join(c);
            lemma_parse_hex8_pieces(c);
        },
    }
}

/// Two concepts have the same address only when they have the same parent and the
/// same index, unless one parent is a `U128` and the other a chunked address of
/// exactly four chunks (both give five chunks).
pub proof fn lemma_concept_ids_distinct(p1: NodeIdView, i1: u32, p2: NodeIdView, i2: u32)
    requires
        !(p1 is U128 && p2 is Chunked && p2->Chunked_0.len() == 4),
        !(p2 is U128 && p1 is Chunked && p1->Chunked_0.len() == 4),
        concept_id(p1, i1) == concept_id(p2, i2),
    ensures
        p1 == p2,
        i1 == i2,
{
    match (p1, p2) {
        (NodeIdView::U32(a), NodeIdView::U32(b)) => {
            assert(a == b && i1 == i2) by (nonlinear_arith)
                requires
                    a * 0x1_0000_0000 + i1 == b * 0x1_0000_0000 + i2,
                    i1 < 0x1_0000_0000,
                    i2 < 0x1_0000_0000,
            ;
        },
        (NodeIdView::U64(a), NodeIdView::U64(b)) => {
            assert(a == b && i1 == i2) by (nonlinear_arith)
                requires
                    a * 0x1_0000_0000 + i1 == b * 0x1_0000_0000 + i2,
                    i1 < 0x1_0000_0000,
                    i2 < 0x1_0000_0000,
            ;
        },
        (NodeIdView::U128(a), NodeIdView::U128(b)) => {
            let wa = u128_words(a).push(i1);
            let wb = u128_words(b).push(i2);
            assert(wa[0] == wb[0] && wa[1] == wb[1] && wa[2] == wb[2] && wa[3] == wb[3]
                && wa[4] == wb[4]);
            assert(a == b) by (bit_vector)
                requires
                    ((a >> 96u128) & 0xFFFF_FFFFu128) as u32 == ((b >> 96u128) & 0xFFFF_FFFFu128) as u32,
                    ((a >> 64u128) & 0xFFFF_FFFFu128) as u32 == ((b >> 64u128) & 0xFFFF_FFFFu128) as u32,
                    ((a >> 32u128) & 0xFFFF_FFFFu128) as u32 == ((b >> 32u128) & 0xFFFF_FFFFu128) as u32,
                    (a & 0xFFFF_FFFFu128) as u32 == (b & 0xFFFF_FFFFu128) as u32,
            ;
        },
        (NodeIdView::Chunked(a), NodeIdView::Chunked(b)) => {
            assert(a.push(i1)[a.len() as int] == i1);
            assert(a.push(i1).len() == b.push(i2).len());
            assert(a =~= a.push(i1).drop_last());
            assert(b =~= b.push(i2).drop_last());
        },
        (NodeIdView::U128(a), NodeIdView::Chunked(b)) => {
            assert(u128_words(a).push(i1).len() == 5);
        },
        (NodeIdView::Chunked(a), NodeIdView::U128(b)) => {
            assert(u128_words(b).push(i2).len() == 5);
        },
        _ => {},
    }
}

/// Tag and keyword addresses ignore case: names that lower-case alike get the same
/// address.
pub proof fn lemma_named_id_ignores_case(prefix: Seq<char>, a: Seq<char>, b: Seq<char>)
    requires
        unicode_lowercase(a) == unicode_lowercase(b),
    ensures
        named_id(prefix, a) == named_id(prefix, b),
        tag_id(a) == tag_id(b),
        keyword_id(a) == keyword_id(b),
{
}

/// For ASCII names case does not matter either: lower-casing is idempotent and
/// keeps a name ASCII, and the address of a name is that of its lower-cased form,
/// so names that lower-case alike share an address.
pub proof fn lemma_ascii_names_ignore_case(prefix: Seq<char>, a: Seq<char>, b: Seq<char>)
    ensures
        ascii_lower(ascii_lower(a)) == ascii_lower(a),
        is_ascii_seq(a) ==> is_ascii_seq(ascii_lower(a)),
        named_id_ascii(prefix, ascii_lower(a)) == named_id_ascii(prefix, a),
        ascii_lower(a) == ascii_lower(b) ==> named_id_ascii(prefix, a) == named_id_ascii(prefix, b),
{
    assert(ascii_lower(ascii_lower(a)) =~= ascii_lower(a));
}

/// The kind of a concept address below a `U32` document is read from the concept's
/// index: a document for an index below `0x4000_0000`, a keyword otherwise.
pub proof fn lemma_concept_kind(d: u32, i: u32)
    ensures
        node_kind(concept_id(NodeIdView::U32(d), i)) == kind_of_id(i),
{
    let v: u64 = (d * 0x1_0000_0000 + i) as u64;
    assert(v % 0x1_0000_0000 == i) by (nonlinear_arith)
        requires
            v == d * 0x1_0000_0000 + i,
            i < 0x1_0000_0000,
    ;
}

} // verus!
