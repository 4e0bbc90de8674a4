//! What is done to the contents of a file on its way into the worktree.
use crate::bytes::{eq_bytes, from, lit, push_all, to_vec};
use crate::git::attributes::line::{StackState, StateView};
use crate::git::attributes::search::{state_of, Outcome, OutcomeView};
use crate::git::error::GitError;
use crate::git::object::{hx_compute_hash, loose_header_spec, sha1_digest, ObjectKind};
use crate::git::oid::hex;
use crate::text::utf8_string;
use vstd::prelude::*;

verus! {

/// How lines end.
#[derive(Debug, Clone, Copy, PartialEq, Eq, Structural)]
pub enum EolMode {
    Lf,
    CrLf,
}

/// What the configuration says of how lines end.
#[derive(Debug, Clone, Copy, PartialEq, Eq, Structural, Default)]
pub enum EolAutoCrlf {
    Input,
    Enabled,
    #[default]
    Disabled,
}

/// What the configuration says of how lines end.
#[derive(Debug, Clone, Copy, PartialEq, Eq, Structural, Default)]
pub struct EolConfiguration {
    pub auto_crlf: EolAutoCrlf,
}

/// What the attributes of a file say of how its lines end.
#[derive(Debug, Clone, Copy, PartialEq, Eq, Structural)]
pub enum AttributesDigest {
    Binary,
    Text,
    TextInput,
    TextCrlf,
    TextAuto,
    TextAutoCrlf,
    TextAutoInput,
}

/// How lines end in the worktree.
pub open spec fn worktree_eol(auto_crlf: EolAutoCrlf) -> EolMode {
    if auto_crlf is Enabled {
        EolMode::CrLf
    } else {
        EolMode::Lf
    }
}

/// How the lines of a file end in the worktree; `None` where they are not looked at.
pub open spec fn digest_eol(d: AttributesDigest, config: EolConfiguration) -> Option<EolMode> {
    match d {
        AttributesDigest::Binary => None,
        AttributesDigest::TextInput | AttributesDigest::TextAutoInput => Some(EolMode::Lf),
        AttributesDigest::TextCrlf | AttributesDigest::TextAutoCrlf => Some(EolMode::CrLf),
        AttributesDigest::Text | AttributesDigest::TextAuto => Some(worktree_eol(config.auto_crlf)),
    }
}

impl EolConfiguration {
    /// How lines end in the worktree.
    pub fn to_eol(&self) -> (r: EolMode)
        ensures
            r == worktree_eol(self.auto_crlf),
    {
        match self.auto_crlf {
            EolAutoCrlf::Enabled => EolMode::CrLf,
            EolAutoCrlf::Input | EolAutoCrlf::Disabled => EolMode::Lf,
        }
    }
}

impl AttributesDigest {
    /// How the lines of the file end in the worktree.
    pub fn to_eol(&self, config: EolConfiguration) -> (r: Option<EolMode>)
        ensures
            r == digest_eol(*self, config),
    {
        match self {
            AttributesDigest::Binary => None,
            AttributesDigest::TextInput | AttributesDigest::TextAutoInput => Some(EolMode::Lf),
            AttributesDigest::TextCrlf | AttributesDigest::TextAutoCrlf => Some(EolMode::CrLf),
            AttributesDigest::Text | AttributesDigest::TextAuto => Some(config.to_eol()),
        }
    }

    /// The contents decide whether the file is text.
    pub open spec fn auto(self) -> bool {
        self is TextAuto || self is TextAutoCrlf || self is TextAutoInput
    }

    /// Whether the contents decide if the file is text.
    pub fn is_auto_text(&self) -> (r: bool)
        ensures
            r == self.auto(),
    {
        match self {
            AttributesDigest::TextAuto
            | AttributesDigest::TextAutoCrlf
            | AttributesDigest::TextAutoInput => true,
            _ => false,
        }
    }
}

/// How often what occurs in a file.
#[derive(Debug, Clone, Copy, PartialEq, Eq, Structural)]
pub struct Stats {
    pub null: usize,
    pub lone_cr: usize,
    pub lone_lf: usize,
    pub crlf: usize,
    pub printable: usize,
    pub non_printable: usize,
}

/// What `Stats` counts.
pub struct Counts {
    pub null: int,
    pub lone_cr: int,
    pub lone_lf: int,
    pub crlf: int,
    pub printable: int,
    pub non_printable: int,
}

impl View for Stats {
    type V = Counts;

    open spec fn view(&self) -> Counts {
        Counts {
            null: self.null as int,
            lone_cr: self.lone_cr as int,
            lone_lf: self.lone_lf as int,
            crlf: self.crlf as int,
            printable: self.printable as int,
            non_printable: self.non_printable as int,
        }
    }
}

/// `b` is a printable character, or one that text may hold.
pub open spec fn printable_byte(b: u8) -> bool {
    b != 127 && (b >= 32 || b == 8 || b == 9 || b == 27 || b == 12)
}

/// What occurs in `s` from position `i` on.
pub open spec fn counted(s: Seq<u8>, i: int) -> Counts
    decreases s.len() - i,
{
    if i >= s.len() || i < 0 {
        Counts { null: 0, lone_cr: 0, lone_lf: 0, crlf: 0, printable: 0, non_printable: 0 }
    } else if s[i] == 0x0d && i + 1 < s.len() && s[i + 1] == 0x0a {
        let rest = counted(s, i + 2);
        Counts { crlf: rest.crlf + 1, ..rest }
    } else {
        let rest = counted(s, i + 1);
        if s[i] == 0x0d {
            Counts { lone_cr: rest.lone_cr + 1, ..rest }
        } else if s[i] == 0x0a {
            Counts { lone_lf: rest.lone_lf + 1, ..rest }
        } else if printable_byte(s[i]) {
            Counts { printable: rest.printable + 1, ..rest }
        } else {
            Counts {
                non_printable: rest.non_printable + 1,
                null: rest.null + (if s[i] == 0 {
                    1int
                } else {
                    0int
                }),
                ..rest
            }
        }
    }
}

/// Both counts together.
pub open spec fn sum(a: Counts, b: Counts) -> Counts {
    Counts {
        null: a.null + b.null,
        lone_cr: a.lone_cr + b.lone_cr,
        lone_lf: a.lone_lf + b.lone_lf,
        crlf: a.crlf + b.crlf,
        printable: a.printable + b.printable,
        non_printable: a.non_printable + b.non_printable,
    }
}

impl Counts {
    /// The contents are no text.
    pub open spec fn binary(self) -> bool {
        self.lone_cr > 0 || self.null > 0 || self.printable / 128 < self.non_printable
    }

    /// The line feeds of the contents get a carriage return.
    pub open spec fn converts(self, d: AttributesDigest, config: EolConfiguration) -> bool {
        &&& digest_eol(d, config) == Some(EolMode::CrLf)
        &&& self.lone_lf > 0
        &&& !(d.auto() && (self.binary() || self.lone_cr > 0 || self.crlf > 0))
    }
}

impl Stats {
    /// Counts what occurs in `bytes`.
    pub fn from_bytes(bytes: &[u8]) -> (r: Stats)
        ensures
            r@ == counted(bytes@, 0),
    {
        let n = bytes.len();
        let mut s = Stats {
            null: 0,
            lone_cr: 0,
            lone_lf: 0,
            crlf: 0,
            printable: 0,
            non_printable: 0,
        };
        let mut i: usize = 0;
        while i < n
            invariant
                i <= n,
                n == bytes@.len(),
                sum(s@, counted(bytes@, i as int)) == counted(bytes@, 0),
                s.null <= s.non_printable,
                s@.lone_cr + s@.lone_lf + s@.crlf + s@.printable + s@.non_printable <= i,
            decreases n - i,
        {
            let b = bytes[i];
            if b == 0x0d && n - i >= 2 && bytes[i + 1] == 0x0a {
                s.crlf += 1;
                i += 2;
            } else {
                if b == 0x0d {
                    s.lone_cr += 1;
                } else if b == 0x0a {
                    s.lone_lf += 1;
                } else if b != 127 && (b >= 32 || b == 8 || b == 9 || b == 27 || b == 12) {
                    s.printable += 1;
                } else {
                    s.non_printable += 1;
                    if b == 0 {
                        s.null += 1;
                    }
                }
                i += 1;
            }
        }
        s
    }

    /// Whether the contents are no text.
    pub fn is_binary(&self) -> (r: bool)
        ensures
            r == self@.binary(),
    {
        self.lone_cr > 0 || self.null > 0 || self.printable / 128 < self.non_printable
    }

    /// Whether the line feeds of the contents get a carriage return.
    pub fn will_convert_lf_to_crlf(&self, digest: AttributesDigest, config: EolConfiguration) -> (r: bool)
        ensures
            r == self@.converts(digest, config),
    {
        let eol = match digest.to_eol(config) {
            Some(EolMode::CrLf) => true,
            _ => false,
        };
        if !eol || self.lone_lf == 0 || (digest.is_auto_text() && (self.is_binary() || self.lone_cr > 0
            || self.crlf > 0)) {
            return false;
        }
        true
    }
}

/// `s` from position `i` on, with a carriage return before every line feed that has none.
pub open spec fn to_crlf(s: Seq<u8>, i: int) -> Seq<u8>
    decreases s.len() - i,
{
    if i >= s.len() || i < 0 {
        Seq::empty()
    } else if s[i] == 0x0d && i + 1 < s.len() && s[i + 1] == 0x0a {
        seq![0x0du8, 0x0a] + to_crlf(s, i + 2)
    } else if s[i] == 0x0a {
        seq![0x0du8, 0x0a] + to_crlf(s, i + 1)
    } else {
        seq![s[i]] + to_crlf(s, i + 1)
    }
}

/// What the conversion of line ends makes of `src`; `None` where it leaves it alone.
pub open spec fn eol_converted(src: Seq<u8>, d: AttributesDigest, config: EolConfiguration) -> Option<Seq<u8>> {
    if counted(src, 0).converts(d, config) {
        Some(to_crlf(src, 0))
    } else {
        None
    }
}

/// Gives every line feed a carriage return where that is asked for.
pub fn eol_convert_to_worktree(src: &[u8], digest: AttributesDigest, config: EolConfiguration) -> (r: Option<
    Vec<u8>,
>)
    ensures
        r is Some <==> eol_converted(src@, digest, config) is Some,
        r matches Some(v) ==> eol_converted(src@, digest, config) == Some(v@),
{
    let stats = Stats::from_bytes(src);
    if !stats.will_convert_lf_to_crlf(digest, config) {
        return None;
    }
    let n = src.len();
    let mut out: Vec<u8> = Vec::new();
    let mut i: usize = 0;
    assert(out@ + to_crlf(src@, 0) =~= to_crlf(src@, 0));
    while i < n
        invariant
            i <= n,
            n == src@.len(),
            to_crlf(src@, 0) == out@ + to_crlf(src@, i as int),
        decreases n - i,
    {
        let ghost before = out@;
        let b = src[i];
        if b == 0x0d && n - i >= 2 && src[i + 1] == 0x0a {
            out.push(0x0d);
            out.push(0x0a);
            assert(before + (seq![0x0du8, 0x0a] + to_crlf(src@, i + 2)) =~= out@ + to_crlf(src@, i + 2));
            i += 2;
        } else if b == 0x0a {
            out.push(0x0d);
            out.push(0x0a);
            assert(before + (seq![0x0du8, 0x0a] + to_crlf(src@, i + 1)) =~= out@ + to_crlf(src@, i + 1));
            i += 1;
        } else {
            out.push(b);
            assert(before + (seq![b] + to_crlf(src@, i + 1)) =~= out@ + to_crlf(src@, i + 1));
            i += 1;
        }
    }
    assert(out@ + to_crlf(src@, i as int) =~= out@);
    Some(out)
}

/// Converting what was converted changes nothing.
pub proof fn law_conversion_is_final(s: Seq<u8>, i: int)
    ensures
        to_crlf(to_crlf(s, i), 0) == to_crlf(s, i),
        counted(to_crlf(s, i), 0).lone_lf == 0,
    decreases s.len() - i,
{
    if 0 <= i < s.len() {
        if s[i] == 0x0d && i + 1 < s.len() && s[i + 1] == 0x0a {
            law_conversion_is_final(s, i + 2);
            lemma_pair_first(to_crlf(s, i + 2));
        } else if s[i] == 0x0a {
            law_conversion_is_final(s, i + 1);
            lemma_pair_first(to_crlf(s, i + 1));
        } else {
            law_conversion_is_final(s, i + 1);
            let rest = to_crlf(s, i + 1);
            if s[i] == 0x0d && i + 1 < s.len() {
                assert(rest[0] != 0x0a);
            }
            let t = seq![s[i]] + rest;
            lemma_shift(seq![s[i]], rest, 0);
            assert(to_crlf(t, 1) == to_crlf(rest, 0));
            assert(counted(t, 1) == counted(rest, 0));
            assert(rest.len() > 0 ==> t[1] == rest[0]);
            assert(t[0] == s[i]);
        }
    } else {
        assert(to_crlf(Seq::<u8>::empty(), 0) =~= Seq::<u8>::empty());
    }
}

/// A carriage return with a line feed stays as it is.
proof fn lemma_pair_first(rest: Seq<u8>)
    ensures
        to_crlf(seq![0x0du8, 0x0a] + rest, 0) == seq![0x0du8, 0x0a] + to_crlf(rest, 0),
        counted(seq![0x0du8, 0x0a] + rest, 0).lone_lf == counted(rest, 0).lone_lf,
{
    let t = seq![0x0du8, 0x0a] + rest;
    lemma_shift(seq![0x0du8, 0x0a], rest, 0);
    assert(t[0] == 0x0d && t[1] == 0x0a);
}

/// What comes before a position does not matter.
proof fn lemma_shift(a: Seq<u8>, b: Seq<u8>, k: int)
    requires
        0 <= k,
    ensures
        to_crlf(a + b, a.len() + k) == to_crlf(b, k),
        counted(a + b, a.len() + k) == counted(b, k),
    decreases b.len() - k,
{
    if k < b.len() {
        let t = a + b;
        assert(t[a.len() + k] == b[k]);
        assert(k + 1 < b.len() ==> t[a.len() + k + 1] == b[k + 1]);
        lemma_shift(a, b, k + 1);
        if k + 1 < b.len() {
            lemma_shift(a, b, k + 2);
        }
    }
}

/// The first position at or after `i` where `$Id$` stands, or the length of `s`.
pub open spec fn ident_pos(s: Seq<u8>, i: int) -> int
    decreases s.len() - i,
{
    if i + 4 > s.len() || i < 0 {
        s.len() as int
    } else if ident_at(s, i) {
        i
    } else {
        ident_pos(s, i + 1)
    }
}

/// `$Id$` stands at position `i`.
pub open spec fn ident_at(s: Seq<u8>, i: int) -> bool {
    0 <= i && i + 4 <= s.len() && s[i] == '$' as u8 && s[i + 1] == 'I' as u8 && s[i + 2] == 'd' as u8 && s[i
        + 3] == '$' as u8
}

/// `s` from position `i` on, in which every `$Id$` names `id`.
pub open spec fn idented_from(s: Seq<u8>, i: int, id: Seq<u8>) -> Seq<u8>
    decreases s.len() - i,
{
    let p = ident_pos(s, i);
    if i > s.len() || p + 4 > s.len() || p < i {
        from(s, i)
    } else {
        s.subrange(i, p + 3) + seq![':' as u8, ' ' as u8] + hex(id) + seq!['$' as u8] + idented_from(
            s,
            p + 4,
            id,
        )
    }
}

/// The id of the blob that holds `src`.
pub open spec fn blob_id(src: Seq<u8>) -> Option<Seq<u8>> {
    sha1_digest(loose_header_spec(ObjectKind::Blob, src.len()) + src)
}

/// Where `$Id$` first stands at or after `i`.
fn find_ident(s: &[u8], i: usize) -> (r: Option<usize>)
    requires
        i <= s@.len(),
    ensures
        r is None <==> ident_pos(s@, i as int) >= s@.len(),
        r matches Some(p) ==> p == ident_pos(s@, i as int) && i <= p && p + 4 <= s@.len(),
{
    let n = s.len();
    let mut k: usize = i;
    while n - k >= 4
        invariant
            i <= k <= n,
            n == s@.len(),
            ident_pos(s@, i as int) == ident_pos(s@, k as int),
        decreases n - k,
    {
        if s[k] == '$' as u8 && s[k + 1] == 'I' as u8 && s[k + 2] == 'd' as u8 && s[k + 3] == '$' as u8 {
            return Some(k);
        }
        k += 1;
    }
    None
}

/// What the ident filter makes of `src`; nothing where it leaves it alone.
pub open spec fn ident_applied(src: Seq<u8>) -> Option<Seq<u8>> {
    if ident_pos(src, 0) < src.len() {
        Some(idented_from(src, 0, blob_id(src)->0))
    } else {
        None
    }
}

/// Replaces every `$Id$` by one that names the blob of `src`. `None` where there is none.
pub fn hx_apply(src: &[u8]) -> (r: Result<Option<Vec<u8>>, GitError>)
    ensures
        r matches Err(e) ==> e is Gen && ident_pos(src@, 0) < src@.len() && blob_id(src@) is None,
        r is Err <==> ident_pos(src@, 0) < src@.len() && blob_id(src@) is None,
        r matches Ok(None) ==> ident_applied(src@) is None,
        r matches Ok(Some(v)) ==> ident_applied(src@) == Some(v@),
{
    let first = match find_ident(src, 0) {
        None => {
            return Ok(None);
        },
        Some(p) => p,
    };
    let id = match hx_compute_hash(ObjectKind::Blob, src) {
        Err(e) => {
            return Err(e);
        },
        Ok(id) => id,
    };
    let n = src.len();
    let mut out: Vec<u8> = Vec::new();
    let mut i: usize = 0;
    let mut next: Option<usize> = Some(first);
    assert(out@ + idented_from(src@, 0, id@) =~= idented_from(src@, 0, id@));
    while next.is_some()
        invariant
            i <= n,
            n == src@.len(),
            next is None <==> ident_pos(src@, i as int) >= n,
            next matches Some(p) ==> p == ident_pos(src@, i as int) && i <= p && p + 4 <= n,
            idented_from(src@, 0, id@) == out@ + idented_from(src@, i as int, id@),
        decreases n - i,
    {
        if let Some(p) = next {
            let ghost before = out@;
            push_all(&mut out, &src[i..p + 3]);
            out.push(':' as u8);
            out.push(' ' as u8);
            id.as_oid().write_hex_to(&mut out);
            out.push('$' as u8);
            proof {
                let part = src@.subrange(i as int, p + 3);
                let rest = idented_from(src@, p + 4, id@);
                assert(out@ =~= before + part + seq![':' as u8, ' ' as u8] + hex(id@) + seq!['$' as u8]);
                assert(before + (part + seq![':' as u8, ' ' as u8] + hex(id@) + seq!['$' as u8] + rest) =~= out@
                    + rest);
            }
            i = p + 4;
            next = find_ident(src, i);
        }
    }
    push_all(&mut out, &src[i..n]);
    Ok(Some(out))
}

/// The name of the encoding that `label` stands for.
pub uninterp spec fn label_encoding(label: Seq<u8>) -> Option<Seq<u8>>;

/// `encoding_rs::Encoding::for_label` with `name`: the encoding that the label stands for. Which labels
/// stand for which encodings is not said here.
#[verifier::external_body]
fn encoding_name(label: &[u8]) -> (r: Option<Vec<u8>>)
    ensures
        r is Some <==> label_encoding(label@) is Some,
        r matches Some(n) ==> label_encoding(label@) == Some(n@),
{
    encoding_rs::Encoding::for_label(label).map(|e| e.name().as_bytes().to_vec())
}

/// The bytes of `text` in the encoding that `label` stands for; `None` where it has none for a character of
/// `text`.
pub uninterp spec fn encoded_text(label: Seq<u8>, text: Seq<char>) -> Option<Seq<u8>>;

/// `encoding_rs::Encoder::encode_from_utf8_without_replacement` on an encoder for the encoding of `label`,
/// with all of `text` and a buffer of the size that the encoder asks for. It ends before the end of the text at
/// a character that the encoding lacks. What the bytes are is not said here.
#[verifier::external_body]
fn encode(label: &[u8], text: &str) -> (r: Option<Vec<u8>>)
    ensures
        r is Some <==> encoded_text(label@, text@) is Some,
        r matches Some(v) ==> encoded_text(label@, text@) == Some(v@),
{
    let mut encoder = encoding_rs::Encoding::for_label(label)?.new_encoder();
    let size = encoder.max_buffer_length_from_utf8_if_no_unmappables(text.len())?;
    let mut out: Vec<u8> = vec![0; size];
    match encoder.encode_from_utf8_without_replacement(text, &mut out, true) {
        (encoding_rs::EncoderResult::InputEmpty, _, written) => {
            out.truncate(written);
            Some(out)
        },
        (encoding_rs::EncoderResult::OutputFull, _, _) => None,
        (encoding_rs::EncoderResult::Unmappable(_), _, _) => None,
    }
}

/// What `src` is in the encoding that `label` stands for.
pub open spec fn encoded(src: Seq<u8>, label: Seq<u8>) -> Option<Seq<u8>> {
    if vstd::utf8::valid_utf8(src) {
        encoded_text(label, vstd::utf8::decode_utf8(src))
    } else {
        None
    }
}

/// Encodes UTF-8 in the encoding that `label` stands for.
pub fn encode_to_worktree(src_utf8: &[u8], label: &[u8]) -> (r: Result<Vec<u8>, GitError>)
    ensures
        r is Ok <==> encoded(src_utf8@, label@) is Some,
        r matches Ok(v) ==> encoded(src_utf8@, label@) == Some(v@),
        r matches Err(e) ==> e is Gen,
{
    match utf8_string(to_vec(src_utf8)) {
        None => Err(GitError::Gen),
        Some(text) => match encode(label, text.as_str()) {
            None => Err(GitError::Gen),
            Some(v) => Ok(v),
        },
    }
}

/// A program that filters contents.
#[derive(Debug)]
pub struct Driver {
    pub name: Vec<u8>,
}

/// The attributes that say how contents are filtered, in the order in which they are asked for.
pub open spec fn filter_attributes() -> Seq<Seq<u8>> {
    seq![lit("crlf"), lit("ident"), lit("filter"), lit("eol"), lit("text"), lit("working-tree-encoding")]
}

/// The names of the attributes that were asked for.
pub open spec fn selected_names(o: OutcomeView) -> Seq<Seq<u8>> {
    Seq::new(o.selected.len(), |k: int| o.selected[k].0)
}

/// The attributes that say how contents are filtered.
pub fn attribute_names() -> (r: Vec<Vec<u8>>)
    ensures
        crate::path::paths_view(r@) == filter_attributes(),
{
    let mut v: Vec<Vec<u8>> = Vec::new();
    v.push(to_vec("crlf".as_bytes()));
    v.push(to_vec("ident".as_bytes()));
    v.push(to_vec("filter".as_bytes()));
    v.push(to_vec("eol".as_bytes()));
    v.push(to_vec("text".as_bytes()));
    v.push(to_vec("working-tree-encoding".as_bytes()));
    assert(crate::path::paths_view(v@) =~= filter_attributes());
    v
}

/// What is done to a file.
#[derive(Debug)]
pub struct Configuration {
    /// Which of the drivers is run.
    pub driver: Option<usize>,
    pub digest: AttributesDigest,
    /// The label of the encoding in the worktree, where it is not UTF-8.
    pub encoding: Option<Vec<u8>>,
    pub apply_ident_filter: bool,
}

/// The first driver with the name that the attribute has as its value.
pub open spec fn named_driver(drivers: Seq<Driver>, state: StateView, i: int) -> Option<int>
    decreases drivers.len() - i,
{
    match state {
        StateView::Value(name) => if i >= drivers.len() || i < 0 {
            None
        } else if drivers[i].name@ == name {
            Some(i)
        } else {
            named_driver(drivers, state, i + 1)
        },
        _ => None,
    }
}

/// The encoding that the attribute asks for: an error where it has no value that stands for one, and nothing for
/// UTF-8.
pub open spec fn wanted_encoding(state: StateView) -> Result<Option<Seq<u8>>, ()> {
    match state {
        StateView::On | StateView::Off => Err(()),
        StateView::Unspecified => Ok(None),
        StateView::Value(label) => match label_encoding(label) {
            None => Err(()),
            Some(name) => if name == lit("UTF-8") {
                Ok(None)
            } else {
                Ok(Some(label))
            },
        },
    }
}

/// What the attributes `text` and `crlf` say.
pub open spec fn crlf_digest(state: StateView) -> Option<AttributesDigest> {
    match state {
        StateView::Unspecified => None,
        StateView::On => Some(AttributesDigest::Text),
        StateView::Off => Some(AttributesDigest::Binary),
        StateView::Value(v) => if v == lit("input") {
            Some(AttributesDigest::TextInput)
        } else if v == lit("auto") {
            Some(AttributesDigest::TextAuto)
        } else {
            None
        },
    }
}

/// What the attribute `eol` says.
pub open spec fn eol_mode(state: StateView) -> Option<EolMode> {
    match state {
        StateView::Value(v) => if v == lit("lf") {
            Some(EolMode::Lf)
        } else if v == lit("crlf") {
            Some(EolMode::CrLf)
        } else {
            None
        },
        _ => None,
    }
}

/// What the attributes `crlf`, `eol` and `text` with the configuration come to.
pub open spec fn digest_of(crlf: StateView, eol: StateView, text: StateView, config: EolConfiguration) -> AttributesDigest {
    let first = if crlf_digest(text) is Some {
        crlf_digest(text)
    } else {
        crlf_digest(crlf)
    };
    let second = if first == Some(AttributesDigest::Binary) {
        first
    } else {
        match eol_mode(eol) {
            None => first,
            Some(EolMode::Lf) => if first == Some(AttributesDigest::TextAuto) {
                Some(AttributesDigest::TextAutoInput)
            } else {
                Some(AttributesDigest::TextInput)
            },
            Some(EolMode::CrLf) => if first == Some(AttributesDigest::TextAuto) {
                Some(AttributesDigest::TextAutoCrlf)
            } else {
                Some(AttributesDigest::TextCrlf)
            },
        }
    };
    match second {
        None => match config.auto_crlf {
            EolAutoCrlf::Input => AttributesDigest::TextAutoInput,
            EolAutoCrlf::Enabled => AttributesDigest::TextAutoCrlf,
            EolAutoCrlf::Disabled => AttributesDigest::Binary,
        },
        Some(AttributesDigest::Text) => match worktree_eol(config.auto_crlf) {
            EolMode::Lf => AttributesDigest::TextInput,
            EolMode::CrLf => AttributesDigest::TextCrlf,
        },
        Some(d) => d,
    }
}

/// The first driver with the name that the attribute has as its value.
fn extract_driver(drivers: &Vec<Driver>, state: &StackState) -> (r: Option<usize>)
    ensures
        r is Some <==> named_driver(drivers@, state@, 0) is Some,
        r matches Some(i) ==> named_driver(drivers@, state@, 0) == Some(i as int) && i < drivers@.len(),
{
    match state {
        StackState::Value(name) => {
            let mut i: usize = 0;
            while i < drivers.len()
                invariant
                    i <= drivers@.len(),
                    state@ == StateView::Value(name@),
                    named_driver(drivers@, state@, 0) == named_driver(drivers@, state@, i as int),
                decreases drivers.len() - i,
            {
                if eq_bytes(drivers[i].name.as_slice(), name.as_slice()) {
                    return Some(i);
                }
                i += 1;
            }
            None
        },
        _ => None,
    }
}

/// The encoding that the attribute asks for.
fn extract_encoding(state: &StackState) -> (r: Result<Option<Vec<u8>>, GitError>)
    ensures
        r is Ok <==> wanted_encoding(state@) is Ok,
        r matches Ok(Some(v)) ==> wanted_encoding(state@) == Ok::<Option<Seq<u8>>, ()>(Some(v@)),
        r matches Ok(None) ==> wanted_encoding(state@) == Ok::<Option<Seq<u8>>, ()>(None),
        r matches Err(e) ==> e is Gen,
{
    match state {
        StackState::On | StackState::Off => Err(GitError::Gen),
        StackState::Unspecified => Ok(None),
        StackState::Value(label) => match encoding_name(label.as_slice()) {
            None => Err(GitError::Gen),
            Some(name) => if eq_bytes(name.as_slice(), "UTF-8".as_bytes()) {
                Ok(None)
            } else {
                Ok(Some(to_vec(label.as_slice())))
            },
        },
    }
}

/// What the attributes `text` and `crlf` say.
fn extract_crlf(state: &StackState) -> (r: Option<AttributesDigest>)
    ensures
        r == crlf_digest(state@),
{
    match state {
        StackState::Unspecified => None,
        StackState::On => Some(AttributesDigest::Text),
        StackState::Off => Some(AttributesDigest::Binary),
        StackState::Value(v) => if eq_bytes(v.as_slice(), "input".as_bytes()) {
            Some(AttributesDigest::TextInput)
        } else if eq_bytes(v.as_slice(), "auto".as_bytes()) {
            Some(AttributesDigest::TextAuto)
        } else {
            None
        },
    }
}

/// What the attribute `eol` says.
fn extract_eol(state: &StackState) -> (r: Option<EolMode>)
    ensures
        r == eol_mode(state@),
{
    match state {
        StackState::Value(v) => if eq_bytes(v.as_slice(), "lf".as_bytes()) {
            Some(EolMode::Lf)
        } else if eq_bytes(v.as_slice(), "crlf".as_bytes()) {
            Some(EolMode::CrLf)
        } else {
            None
        },
        _ => None,
    }
}

/// What the attributes `crlf`, `eol` and `text` with the configuration come to.
pub fn extract_digest(crlf: &StackState, eol: &StackState, text: &StackState, config: EolConfiguration) -> (r:
    AttributesDigest)
    ensures
        r == digest_of(crlf@, eol@, text@, config),
{
    let mut digest = extract_crlf(text);
    if digest.is_none() {
        digest = extract_crlf(crlf);
    }
    let binary = match digest {
        Some(AttributesDigest::Binary) => true,
        _ => false,
    };
    if !binary {
        let auto = match digest {
            Some(AttributesDigest::TextAuto) => true,
            _ => false,
        };
        digest = match extract_eol(eol) {
            None => digest,
            Some(EolMode::Lf) => if auto {
                Some(AttributesDigest::TextAutoInput)
            } else {
                Some(AttributesDigest::TextInput)
            },
            Some(EolMode::CrLf) => if auto {
                Some(AttributesDigest::TextAutoCrlf)
            } else {
                Some(AttributesDigest::TextCrlf)
            },
        };
    }
    match digest {
        None => match config.auto_crlf {
            EolAutoCrlf::Input => AttributesDigest::TextAutoInput,
            EolAutoCrlf::Enabled => AttributesDigest::TextAutoCrlf,
            EolAutoCrlf::Disabled => AttributesDigest::Binary,
        },
        Some(AttributesDigest::Text) => match config.to_eol() {
            EolMode::Lf => AttributesDigest::TextInput,
            EolMode::CrLf => AttributesDigest::TextCrlf,
        },
        Some(d) => d,
    }
}

/// `c` is what the attributes `o`, which were asked for in the order of `attribute_names`, say.
pub open spec fn is_configuration(c: Configuration, drivers: Seq<Driver>, o: OutcomeView, config: EolConfiguration) -> bool {
    let driver = named_driver(drivers, state_of(o, 2), 0);
    &&& c.driver is Some <==> driver is Some
    &&& (c.driver matches Some(i) ==> driver == Some(i as int) && i < drivers.len())
    &&& c.apply_ident_filter == (state_of(o, 1) is On || state_of(o, 1) is Value)
    &&& wanted_encoding(state_of(o, 5)) == Ok::<Option<Seq<u8>>, ()>(
        crate::git::config::source::maybe(c.encoding),
    )
    &&& c.digest == digest_of(state_of(o, 0), state_of(o, 3), state_of(o, 4), config)
}

impl Configuration {
    /// What is done to a file whose attributes are `attrs`, which are those of `attribute_names` in that order.
    pub fn at_path(drivers: &Vec<Driver>, attrs: &Outcome, config: EolConfiguration) -> (r: Result<
        Configuration,
        GitError,
    >)
        requires
            attrs.wf(),
            selected_names(attrs@) == filter_attributes(),
        ensures
            r is Ok <==> wanted_encoding(state_of(attrs@, 5)) is Ok,
            r matches Err(e) ==> e is Gen,
            r matches Ok(c) ==> is_configuration(c, drivers@, attrs@, config),
    {
        assert(selected_names(attrs@).len() == 6);
        let crlf = attrs.selected_state(0);
        let ident = attrs.selected_state(1);
        let filter = attrs.selected_state(2);
        let eol = attrs.selected_state(3);
        let text = attrs.selected_state(4);
        let label = attrs.selected_state(5);
        let driver = extract_driver(drivers, &filter);
        match extract_encoding(&label) {
            Err(e) => Err(e),
            Ok(encoding) => Ok(
                Configuration {
                    driver,
                    digest: extract_digest(&crlf, &eol, &text, config),
                    encoding,
                    apply_ident_filter: ident.is_set(),
                },
            ),
        }
    }
}

/// What a filter gives back.
#[derive(Debug)]
pub enum MaybeDelayed {
    /// All of it, at once.
    Immediate(Vec<u8>),
}

/// The contents of a file for the worktree.
#[derive(Debug)]
pub enum ToWorktreeOutcome<'input> {
    /// They are what was stored.
    Unchanged(&'input [u8]),
    /// They were changed.
    Buffer(Vec<u8>),
    /// A filter gives them.
    Process(MaybeDelayed),
}

impl<'input> ToWorktreeOutcome<'input> {
    /// The contents.
    pub open spec fn bytes_of(self) -> Seq<u8> {
        match self {
            ToWorktreeOutcome::Unchanged(b) => b@,
            ToWorktreeOutcome::Buffer(b) => b@,
            ToWorktreeOutcome::Process(MaybeDelayed::Immediate(b)) => b@,
        }
    }

    /// The contents.
    pub fn bytes(&self) -> (r: &[u8])
        ensures
            r@ == self.bytes_of(),
    {
        match self {
            ToWorktreeOutcome::Unchanged(b) => b,
            ToWorktreeOutcome::Buffer(b) => b.as_slice(),
            ToWorktreeOutcome::Process(MaybeDelayed::Immediate(b)) => b.as_slice(),
        }
    }
}

/// The contents, with a step that may have changed them.
pub open spec fn or_else(changed: Option<Seq<u8>>, src: Seq<u8>) -> Seq<u8> {
    match changed {
        Some(s) => s,
        None => src,
    }
}

/// The contents after the ident filter.
pub open spec fn after_ident(src: Seq<u8>, c: Configuration) -> Seq<u8> {
    if c.apply_ident_filter {
        or_else(ident_applied(src), src)
    } else {
        src
    }
}

/// The contents after the ident filter and the conversion of line ends.
pub open spec fn after_eol(src: Seq<u8>, c: Configuration, config: EolConfiguration) -> Seq<u8> {
    let s = after_ident(src, c);
    or_else(eol_converted(s, c.digest, config), s)
}

/// The id that the contents would name cannot be computed.
pub open spec fn ident_fails(src: Seq<u8>, c: Configuration) -> bool {
    c.apply_ident_filter && ident_pos(src, 0) < src.len() && blob_id(src) is None
}

/// Some step before the filter changes the contents.
pub open spec fn changes(src: Seq<u8>, c: Configuration, config: EolConfiguration) -> bool {
    ||| c.apply_ident_filter && ident_applied(src) is Some
    ||| eol_converted(after_ident(src, c), c.digest, config) is Some
    ||| c.encoding is Some
}

/// `r` is what is made of `src`.
pub open spec fn converted_as(
    src: Seq<u8>,
    c: Configuration,
    config: EolConfiguration,
    r: Result<ToWorktreeOutcome<'_>, GitError>,
) -> bool {
    &&& r is Err <==> ident_fails(src, c) || (c.encoding matches Some(label) && encoded(
        after_eol(src, c, config),
        label@,
    ) is None)
    &&& match r {
        Err(e) => e is Gen,
        Ok(ToWorktreeOutcome::Process(MaybeDelayed::Immediate(b))) => c.driver is Some && b@.len() == 0,
        Ok(ToWorktreeOutcome::Unchanged(b)) => c.driver is None && !changes(src, c, config) && b@ == src,
        Ok(ToWorktreeOutcome::Buffer(b)) => {
            &&& c.driver is None && changes(src, c, config)
            &&& b@ == (match c.encoding {
                Some(label) => encoded(after_eol(src, c, config), label@)->0,
                None => after_eol(src, c, config),
            })
        },
    }
}

/// Makes the contents for the worktree: first ids are filled in, then line ends converted, then the text is
/// encoded; where a driver is named, a filter gives the contents.
pub fn hx_convert_to_worktree<'input>(src: &'input [u8], c: &Configuration, config: EolConfiguration) -> (r:
    Result<ToWorktreeOutcome<'input>, GitError>)
    ensures
        converted_as(src@, *c, config, r),
{
    let mut owned: Option<Vec<u8>> = None;
    if c.apply_ident_filter {
        match hx_apply(src) {
            Err(e) => {
                return Err(e);
            },
            Ok(v) => {
                owned = v;
            },
        }
    }
    let converted = match &owned {
        Some(v) => eol_convert_to_worktree(v.as_slice(), c.digest, config),
        None => eol_convert_to_worktree(src, c.digest, config),
    };
    if converted.is_some() {
        owned = converted;
    }
    assert(or_else(crate::git::config::source::maybe(owned), src@) == after_eol(src@, *c, config));
    match &c.encoding {
        Some(label) => {
            let encoded = match &owned {
                Some(v) => encode_to_worktree(v.as_slice(), label.as_slice()),
                None => encode_to_worktree(src, label.as_slice()),
            };
            match encoded {
                Err(e) => {
                    return Err(e);
                },
                Ok(v) => {
                    owned = Some(v);
                },
            }
        },
        None => {},
    }
    if c.driver.is_some() {
        return Ok(ToWorktreeOutcome::Process(MaybeDelayed::Immediate(Vec::new())));
    }
    match owned {
        None => Ok(ToWorktreeOutcome::Unchanged(src)),
        Some(v) => Ok(ToWorktreeOutcome::Buffer(v)),
    }
}

/// What the value `value` of the key `core.autocrlf` says.
pub open spec fn autocrlf_of(value: Seq<u8>) -> Option<EolAutoCrlf> {
    if value == lit("input") {
        Some(EolAutoCrlf::Input)
    } else {
        match crate::git::config::value::boolean_value(value) {
            Some(true) => Some(EolAutoCrlf::Enabled),
            Some(false) => Some(EolAutoCrlf::Disabled),
            None => None,
        }
    }
}

/// What the value `value` of the key `core.autocrlf` says.
pub fn try_into_autocrlf(value: &[u8]) -> (r: Result<EolAutoCrlf, GitError>)
    ensures
        r is Ok <==> autocrlf_of(value@) is Some,
        r matches Ok(x) ==> autocrlf_of(value@) == Some(x),
        r matches Err(e) ==> e is Gen,
{
    if eq_bytes(value, "input".as_bytes()) {
        return Ok(EolAutoCrlf::Input);
    }
    match crate::git::config::value::Boolean::try_from_bytes(value) {
        Err(e) => Err(e),
        Ok(b) => if b.0 {
            Ok(EolAutoCrlf::Enabled)
        } else {
            Ok(EolAutoCrlf::Disabled)
        },
    }
}

proof fn lemma_words_differ()
    ensures
        lit("input") != lit("auto"),
        lit("lf") != lit("crlf"),
{
    reveal_strlit("input");
    reveal_strlit("auto");
    reveal_strlit("lf");
    reveal_strlit("crlf");
    vstd::utf8::is_ascii_chars_encode_utf8("input"@);
    vstd::utf8::is_ascii_chars_encode_utf8("auto"@);
    vstd::utf8::is_ascii_chars_encode_utf8("lf"@);
    vstd::utf8::is_ascii_chars_encode_utf8("crlf"@);
    assert(lit("input").len() == 5 && lit("auto").len() == 4 && lit("lf").len() == 2 && lit("crlf").len() == 4);
}

/// The attribute `text` or `crlf` says something: it is set or unset, or has one of the values that mean something.
pub open spec fn speaks(state: StateView) -> bool {
    state is On || state is Off || state == StateView::Value(lit("input")) || state == StateView::Value(lit("auto"))
}

/// The attribute that says whether a file is text: `text`, or `crlf` where that says nothing.
pub open spec fn deciding(crlf: StateView, text: StateView) -> StateView {
    if speaks(text) {
        text
    } else {
        crlf
    }
}

/// A file that is unset to be text is not looked at. Of any other one, `eol` decides how its lines end. The contents
/// decide whether it is text exactly where it is to be found out.
pub proof fn law_eol_attribute_decides(
    crlf: StateView,
    eol: StateView,
    text: StateView,
    config: EolConfiguration,
)
    ensures
        ({
            let d = digest_of(crlf, eol, text, config);
            let decider = deciding(crlf, text);
            &&& decider is Off ==> digest_eol(d, config) is None
            &&& !(decider is Off) && eol == StateView::Value(lit("crlf")) ==> digest_eol(d, config) == Some(
                EolMode::CrLf,
            )
            &&& !(decider is Off) && eol == StateView::Value(lit("lf")) ==> digest_eol(d, config) == Some(EolMode::Lf)
            &&& eol == StateView::Value(lit("crlf")) || eol == StateView::Value(lit("lf")) ==> (d.auto()
                <==> decider == StateView::Value(lit("auto")))
        }),
{
    lemma_words_differ();
}

/// Where `eol` says nothing, a file that is text has its lines end as the configuration says, unless they are to stay
/// as they are stored; and where no attribute says anything, `core.autocrlf` decides.
pub proof fn law_configuration_decides_otherwise(
    crlf: StateView,
    eol: StateView,
    text: StateView,
    config: EolConfiguration,
)
    requires
        eol != StateView::Value(lit("crlf")),
        eol != StateView::Value(lit("lf")),
    ensures
        ({
            let d = digest_of(crlf, eol, text, config);
            let decider = deciding(crlf, text);
            let wanted = if config.auto_crlf == EolAutoCrlf::Enabled {
                EolMode::CrLf
            } else {
                EolMode::Lf
            };
            &&& decider is On ==> digest_eol(d, config) == Some(wanted) && !d.auto()
            &&& decider == StateView::Value(lit("input")) ==> digest_eol(d, config) == Some(EolMode::Lf) && !d.auto()
            &&& decider == StateView::Value(lit("auto")) ==> digest_eol(d, config) == Some(wanted) && d.auto()
            &&& !speaks(decider) ==> (if config.auto_crlf == EolAutoCrlf::Disabled {
                digest_eol(d, config) is None
            } else {
                digest_eol(d, config) == Some(wanted) && d.auto()
            })
        }),
{
    lemma_words_differ();
}

/// The bytes without each carriage return that stands before a line feed.
pub open spec fn with_bare_lf(s: Seq<u8>) -> Seq<u8>
    decreases s.len(),
{
    if s.len() == 0 {
        s
    } else if s.len() >= 2 && s[0] == 13 && s[1] == 10 {
        seq![10u8] + with_bare_lf(s.skip(2))
    } else {
        seq![s[0]] + with_bare_lf(s.skip(1))
    }
}

proof fn lemma_to_crlf(s: Seq<u8>, i: int)
    requires
        0 <= i <= s.len(),
    ensures
        with_bare_lf(to_crlf(s, i)) == with_bare_lf(s.skip(i)),
        forall|k: int|
            0 <= k < to_crlf(s, i).len() && (#[trigger] to_crlf(s, i)[k]) == 10 ==> k > 0 && to_crlf(s, i)[k - 1] == 13,
        to_crlf(s, i).len() > 0 ==> to_crlf(s, i)[0] != 10,
        i < s.len() && s[i] != 10 ==> to_crlf(s, i).len() > 0 && to_crlf(s, i)[0] == s[i],
    decreases s.len() - i,
{
    let out = to_crlf(s, i);
    if i < s.len() {
        let here = s.skip(i);
        if s[i] == 13 && i + 1 < s.len() && s[i + 1] == 10 {
            lemma_to_crlf(s, i + 2);
            assert(out.skip(2) =~= to_crlf(s, i + 2));
            assert(here.skip(2) =~= s.skip(i + 2));
            assert forall|k: int| 0 <= k < out.len() && (#[trigger] out[k]) == 10 implies k > 0 && out[k - 1] == 13 by {
                if k >= 2 {
                    assert(out[k] == to_crlf(s, i + 2)[k - 2]);
                    assert(k - 2 > 0);
                    assert(out[k - 1] == to_crlf(s, i + 2)[k - 3]);
                }
            }
        } else if s[i] == 10 {
            lemma_to_crlf(s, i + 1);
            assert(out.skip(2) =~= to_crlf(s, i + 1));
            assert(here.skip(1) =~= s.skip(i + 1));
            assert forall|k: int| 0 <= k < out.len() && (#[trigger] out[k]) == 10 implies k > 0 && out[k - 1] == 13 by {
                if k >= 2 {
                    assert(out[k] == to_crlf(s, i + 1)[k - 2]);
                    assert(k - 2 > 0);
                    assert(out[k - 1] == to_crlf(s, i + 1)[k - 3]);
                }
            }
        } else {
            lemma_to_crlf(s, i + 1);
            let rest = to_crlf(s, i + 1);
            assert(out.skip(1) =~= rest);
            assert(here.skip(1) =~= s.skip(i + 1));
            assert forall|k: int| 0 <= k < out.len() && (#[trigger] out[k]) == 10 implies k > 0 && out[k - 1] == 13 by {
                if k >= 1 {
                    assert(out[k] == rest[k - 1]);
                    assert(k - 1 > 0);
                    assert(out[k - 1] == rest[k - 2]);
                }
            }
            assert(out.len() >= 2 ==> out[1] == rest[0]);
        }
    } else {
        assert(s.skip(i) =~= Seq::empty());
    }
}

/// Contents whose line ends are converted have a carriage return before every line feed, and nothing else of them is
/// changed.
pub proof fn law_every_line_ends_in_crlf(s: Seq<u8>, d: AttributesDigest, config: EolConfiguration)
    ensures
        eol_converted(s, d, config) matches Some(out) ==> {
            &&& with_bare_lf(out) == with_bare_lf(s)
            &&& forall|k: int| 0 <= k < out.len() && (#[trigger] out[k]) == 10 ==> k > 0 && out[k - 1] == 13
        },
{
    lemma_to_crlf(s, 0);
    assert(s.skip(0) =~= s);
}

/// How many of the bytes are such.
pub open spec fn how_many(s: Seq<u8>, such: spec_fn(u8) -> bool) -> int
    decreases s.len(),
{
    if s.len() == 0 {
        0
    } else {
        how_many(s.skip(1), such) + (if such(s[0]) {
            1int
        } else {
            0int
        })
    }
}

/// How many line feeds have a carriage return before them.
pub open spec fn crlf_pairs(s: Seq<u8>) -> int
    decreases s.len(),
{
    if s.len() < 2 {
        0
    } else {
        crlf_pairs(s.skip(1)) + (if s[0] == 13 && s[1] == 10 {
            1int
        } else {
            0int
        })
    }
}

/// The byte is a character that text is made of: one that can be seen, a space, or one of backspace, tab, form feed
/// and escape. Bytes outside of ASCII count as such.
pub open spec fn text_byte(b: u8) -> bool {
    (32 <= b && b <= 126) || b >= 128 || b == 8 || b == 9 || b == 12 || b == 27
}

proof fn lemma_counted(s: Seq<u8>, i: int)
    requires
        0 <= i <= s.len(),
    ensures
        ({
            let c = counted(s, i);
            let t = s.skip(i);
            &&& c.null == how_many(t, |b: u8| b == 0)
            &&& c.crlf == crlf_pairs(t)
            &&& c.lone_cr == how_many(t, |b: u8| b == 13) - crlf_pairs(t)
            &&& c.lone_lf == how_many(t, |b: u8| b == 10) - crlf_pairs(t)
            &&& c.printable == how_many(t, |b: u8| text_byte(b))
            &&& c.non_printable == how_many(t, |b: u8| !text_byte(b) && b != 10 && b != 13)
        }),
    decreases s.len() - i,
{
    let t = s.skip(i);
    if i < s.len() {
        assert(t.skip(1) =~= s.skip(i + 1));
        assert(t[0] == s[i]);
        reveal_with_fuel(how_many, 3);
        reveal_with_fuel(crlf_pairs, 3);
        if s[i] == 13 && i + 1 < s.len() && s[i + 1] == 10 {
            lemma_counted(s, i + 2);
            assert(t.skip(1).skip(1) =~= s.skip(i + 2));
            assert(t.skip(1)[0] == s[i + 1]);
        } else {
            lemma_counted(s, i + 1);
        }
    }
}

/// The line ends of text are converted where they are to be and some line ends in a line feed alone. Where the contents
/// decide whether the file is text, it is none if it holds a null byte, a carriage return, or more than one in 128 bytes
/// that text is not made of.
pub proof fn law_text_is_converted(s: Seq<u8>, d: AttributesDigest, config: EolConfiguration)
    ensures
        eol_converted(s, d, config) is Some <==> {
            let strange = how_many(s, |b: u8| !text_byte(b) && b != 10 && b != 13);
            &&& digest_eol(d, config) == Some(EolMode::CrLf)
            &&& how_many(s, |b: u8| b == 10) > crlf_pairs(s)
            &&& d.auto() ==> {
                &&& how_many(s, |b: u8| b == 0) == 0
                &&& how_many(s, |b: u8| b == 13) == 0
                &&& strange <= how_many(s, |b: u8| text_byte(b)) / 128
            }
        },
{
    lemma_counted(s, 0);
    assert(s.skip(0) =~= s);
    lemma_how_many_bounds(s);
}

proof fn lemma_how_many_bounds(s: Seq<u8>)
    ensures
        0 <= crlf_pairs(s) <= how_many(s, |b: u8| b == 13),
        0 <= how_many(s, |b: u8| b == 0),
        0 <= how_many(s, |b: u8| text_byte(b)),
    decreases s.len(),
{
    if s.len() > 0 {
        lemma_how_many_bounds(s.skip(1));
        if s.len() < 2 {
            assert(crlf_pairs(s.skip(1)) == 0);
        }
    }
}

/// What the ident filter writes for an object with the id `id`.
pub open spec fn ident_text(id: Seq<u8>) -> Seq<u8> {
    lit("$Id: ") + hex(id) + lit("$")
}

/// `$Id$` stands nowhere in `s`.
pub open spec fn no_ident(s: Seq<u8>) -> bool {
    forall|i: int| 0 <= i && i + 4 <= s.len() ==> #[trigger] s.subrange(i, i + 4) != lit("$Id$")
}

proof fn lemma_ident_words()
    ensures
        lit("$Id$") == seq!['$' as u8, 'I' as u8, 'd' as u8, '$' as u8],
        lit("$Id: ") == seq!['$' as u8, 'I' as u8, 'd' as u8, ':' as u8, ' ' as u8],
        lit("$") == seq!['$' as u8],
{
    reveal_strlit("$Id$");
    reveal_strlit("$Id: ");
    reveal_strlit("$");
    vstd::utf8::is_ascii_chars_encode_utf8("$Id$"@);
    vstd::utf8::is_ascii_chars_encode_utf8("$Id: "@);
    vstd::utf8::is_ascii_chars_encode_utf8("$"@);
    assert(lit("$Id$") =~= seq!['$' as u8, 'I' as u8, 'd' as u8, '$' as u8]);
    assert(lit("$Id: ") =~= seq!['$' as u8, 'I' as u8, 'd' as u8, ':' as u8, ' ' as u8]);
    assert(lit("$") =~= seq!['$' as u8]);
}

proof fn lemma_ident_pos_is(s: Seq<u8>, i: int, p: int)
    requires
        0 <= i <= p,
        forall|k: int| i <= k < p ==> !#[trigger] ident_at(s, k),
        ident_at(s, p) || (p == s.len()),
    ensures
        ident_pos(s, i) == p,
    decreases p - i,
{
    if i < p {
        assert(!ident_at(s, i));
        if i + 4 <= s.len() {
            lemma_ident_pos_is(s, i + 1, p);
        }
    }
}

proof fn lemma_ident_pos(s: Seq<u8>, i: int)
    requires
        0 <= i <= s.len(),
    ensures
        i <= ident_pos(s, i) <= s.len(),
        ident_pos(s, i) < s.len() ==> ident_at(s, ident_pos(s, i)),
        forall|k: int| i <= k < ident_pos(s, i) ==> !#[trigger] ident_at(s, k),
    decreases s.len() - i,
{
    if i + 4 <= s.len() && !ident_at(s, i) {
        lemma_ident_pos(s, i + 1);
    }
}

proof fn lemma_idented_shift(a: Seq<u8>, b: Seq<u8>, k: int, id: Seq<u8>)
    requires
        0 <= k <= b.len(),
    ensures
        idented_from(a + b, a.len() + k, id) == idented_from(b, k, id),
    decreases b.len() - k,
{
    let s = a + b;
    let n = a.len();
    let p = ident_pos(b, k);
    lemma_ident_pos(b, k);
    assert forall|j: int| 0 <= j implies ident_at(b, j) == #[trigger] ident_at(s, n + j) by {
        if j + 4 <= b.len() {
            assert(s[n + j] == b[j] && s[n + j + 1] == b[j + 1] && s[n + j + 2] == b[j + 2] && s[n + j + 3] == b[j + 3]);
        }
    }
    assert forall|j: int| n + k <= j < n + p implies !#[trigger] ident_at(s, j) by {
        assert(ident_at(b, j - n) == ident_at(s, n + (j - n)));
    }
    assert(ident_at(b, p) == ident_at(s, n + p));
    lemma_ident_pos_is(s, n + k, n + p);
    if p < b.len() {
        lemma_idented_shift(a, b, p + 4, id);
        assert(s.subrange(n + k, n + p + 3) =~= b.subrange(k, p + 3));
    } else {
        assert(from(s, n + k) =~= from(b, k));
    }
}

/// The ident filter leaves contents alone in which `$Id$` does not stand. Otherwise it writes the id of the contents at
/// the first place where it stands, and goes on with what comes after that.
pub proof fn law_ident_is_filled_in(before: Seq<u8>, after: Seq<u8>, id: Seq<u8>)
    requires
        no_ident(before + lit("$Id")),
    ensures
        no_ident(before) && ident_applied(before) is None && idented_from(before, 0, id) == before,
        ({
            let src = before + lit("$Id$") + after;
            &&& ident_applied(src) == Some(idented_from(src, 0, blob_id(src)->0))
            &&& idented_from(src, 0, id) == before + ident_text(id) + idented_from(after, 0, id)
        }),
{
    lemma_ident_words();
    reveal_strlit("$Id");
    vstd::utf8::is_ascii_chars_encode_utf8("$Id"@);
    assert(lit("$Id") =~= seq!['$' as u8, 'I' as u8, 'd' as u8]);
    let n = before.len() as int;
    let head = before + lit("$Id");
    let src = before + lit("$Id$") + after;
    assert forall|i: int| 0 <= i < n implies !#[trigger] ident_at(src, i) by {
        if i + 4 <= src.len() {
            let w = head.subrange(i, i + 4);
            assert(forall|k: int| 0 <= k < 4 ==> #[trigger] w[k] == src[i + k]);
            if ident_at(src, i) {
                assert(w[0] == src[i + 0] && w[1] == src[i + 1] && w[2] == src[i + 2] && w[3] == src[i + 3]);
                assert(w =~= lit("$Id$"));
            }
        }
    }
    assert(ident_at(src, n));
    lemma_ident_pos_is(src, 0, n);
    lemma_idented_shift(before + lit("$Id$"), after, 0, id);
    assert(idented_from(src, 0, id) =~= before + ident_text(id) + idented_from(after, 0, id)) by {
        assert(src.subrange(0, n + 3) =~= head);
    }
    assert forall|i: int| 0 <= i && i + 4 <= before.len() implies #[trigger] before.subrange(i, i + 4) != lit("$Id$") by {
        assert(before.subrange(i, i + 4) =~= head.subrange(i, i + 4));
    }
    assert forall|i: int| 0 <= i < n implies !#[trigger] ident_at(before, i) by {
        if i + 4 <= n {
            if ident_at(before, i) {
                assert(before.subrange(i, i + 4) =~= lit("$Id$"));
            }
        }
    }
    lemma_ident_pos_is(before, 0, n);
    assert(from(before, 0) =~= before);
}

/// What is done to a file is said by the attributes of these names.
pub proof fn law_attributes_have_their_names(
    c: Configuration,
    drivers: Seq<Driver>,
    o: OutcomeView,
    config: EolConfiguration,
    crlf: int,
    ident: int,
    filter: int,
    eol: int,
    text: int,
    encoding: int,
)
    requires
        selected_names(o) == filter_attributes(),
        is_configuration(c, drivers, o, config),
        0 <= crlf < o.selected.len() && o.selected[crlf].0 == lit("crlf"),
        0 <= ident < o.selected.len() && o.selected[ident].0 == lit("ident"),
        0 <= filter < o.selected.len() && o.selected[filter].0 == lit("filter"),
        0 <= eol < o.selected.len() && o.selected[eol].0 == lit("eol"),
        0 <= text < o.selected.len() && o.selected[text].0 == lit("text"),
        0 <= encoding < o.selected.len() && o.selected[encoding].0 == lit("working-tree-encoding"),
    ensures
        c.digest == digest_of(state_of(o, crlf), state_of(o, eol), state_of(o, text), config),
        c.apply_ident_filter <==> state_of(o, ident) is On || state_of(o, ident) is Value,
        state_of(o, encoding) is Unspecified ==> c.encoding is None,
        c.encoding matches Some(label) ==> state_of(o, encoding) == StateView::Value(label@),
        c.driver is Some <==> exists|i: int|
            0 <= i < drivers.len() && state_of(o, filter) == StateView::Value((#[trigger] drivers[i]).name@),
        c.driver matches Some(i) ==> state_of(o, filter) == StateView::Value(drivers[i as int].name@),
{
    lemma_attribute_words();
    let names = selected_names(o);
    assert(names.len() == 6);
    assert(names[crlf] == lit("crlf") && names[ident] == lit("ident") && names[filter] == lit("filter") && names[eol]
        == lit("eol") && names[text] == lit("text") && names[encoding] == lit("working-tree-encoding"));
    assert(crlf == 0 && ident == 1 && filter == 2 && eol == 3 && text == 4 && encoding == 5);
    lemma_named_driver(drivers, state_of(o, 2), 0);
}

proof fn lemma_named_driver(drivers: Seq<Driver>, state: StateView, i: int)
    requires
        0 <= i <= drivers.len(),
    ensures
        named_driver(drivers, state, i) is Some <==> exists|k: int|
            i <= k < drivers.len() && state == StateView::Value((#[trigger] drivers[k]).name@),
        named_driver(drivers, state, i) matches Some(k) ==> i <= k < drivers.len() && state == StateView::Value(
            drivers[k].name@,
        ),
    decreases drivers.len() - i,
{
    if i < drivers.len() {
        lemma_named_driver(drivers, state, i + 1);
        if state == StateView::Value(drivers[i].name@) {
            assert(drivers[i].name@ == drivers[i].name@);
        }
    }
}

proof fn lemma_attribute_words()
    ensures
        filter_attributes().no_duplicates(),
{
    reveal_strlit("crlf");
    reveal_strlit("ident");
    reveal_strlit("filter");
    reveal_strlit("eol");
    reveal_strlit("text");
    reveal_strlit("working-tree-encoding");
    vstd::utf8::is_ascii_chars_encode_utf8("crlf"@);
    vstd::utf8::is_ascii_chars_encode_utf8("ident"@);
    vstd::utf8::is_ascii_chars_encode_utf8("filter"@);
    vstd::utf8::is_ascii_chars_encode_utf8("eol"@);
    vstd::utf8::is_ascii_chars_encode_utf8("text"@);
    vstd::utf8::is_ascii_chars_encode_utf8("working-tree-encoding"@);
    assert(lit("crlf")[0] == 'c' as u8 && lit("ident")[0] == 'i' as u8 && lit("filter")[0] == 'f' as u8 && lit("eol")[0]
        == 'e' as u8 && lit("text")[0] == 't' as u8 && lit("working-tree-encoding")[0] == 'w' as u8);
}

/// Text is encoded as the text that it is, and a file that is to be in UTF-8 stays as it is.
pub proof fn law_text_is_encoded(text: Seq<char>, label: Seq<u8>)
    ensures
        encoded(vstd::utf8::encode_utf8(text), label) == encoded_text(label, text),
        label_encoding(label) == Some(lit("UTF-8")) ==> wanted_encoding(StateView::Value(label))
            == Ok::<Option<Seq<u8>>, ()>(None),
        label_encoding(label) is None ==> wanted_encoding(StateView::Value(label)) is Err,
        label_encoding(label) is Some && label_encoding(label) != Some(lit("UTF-8")) ==> wanted_encoding(
            StateView::Value(label),
        ) == Ok::<Option<Seq<u8>>, ()>(Some(label)),
{
    vstd::utf8::encode_utf8_valid_utf8(text);
    vstd::utf8::encode_utf8_decode_utf8(text);
}

/// Filling in the id and converting line ends is converting the line ends of contents in which the id was filled in. A
/// file for which neither is asked stays as it is.
pub proof fn law_steps_come_one_after_the_other(
    src: Seq<u8>,
    both: Configuration,
    ident: Configuration,
    eol: Configuration,
    plain: Configuration,
    config: EolConfiguration,
    first: Result<ToWorktreeOutcome<'_>, GitError>,
    second: Result<ToWorktreeOutcome<'_>, GitError>,
    all: Result<ToWorktreeOutcome<'_>, GitError>,
    untouched: Result<ToWorktreeOutcome<'_>, GitError>,
)
    requires
        both.driver is None && ident.driver is None && eol.driver is None && plain.driver is None,
        both.encoding is None && ident.encoding is None && eol.encoding is None && plain.encoding is None,
        both.apply_ident_filter && ident.apply_ident_filter && !eol.apply_ident_filter && !plain.apply_ident_filter,
        both.digest == eol.digest,
        digest_eol(ident.digest, config) is None && digest_eol(plain.digest, config) is None,
        converted_as(src, ident, config, first),
        first matches Ok(x) ==> converted_as(x.bytes_of(), eol, config, second),
        converted_as(src, both, config, all),
        converted_as(src, plain, config, untouched),
    ensures
        first is Err <==> all is Err,
        first is Ok ==> second is Ok && all->Ok_0.bytes_of() == second->Ok_0.bytes_of(),
        untouched is Ok && untouched->Ok_0.bytes_of() == src,
{
}

} // verus!
