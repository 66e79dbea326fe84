//! The story formats that a story can be built for, and the identifier
//! that a new story gets.

use vstd::prelude::*;
use crate::text::{same_text, string_from_chars};

verus! {

/// A story format: the runtime that plays a published story.
#[derive(Debug, Clone, Copy, PartialEq, Eq, Structural)]
pub enum StoryFormat {
    Harlowe,
    Chapbook,
    Snowman,
    Sugarcube,
}

/// The name that is no story format's.
#[derive(Debug)]
pub struct UnknownStoryFormat(pub String);

/// The source text of each story format, loaded once and handed to
/// whatever builds a story.
#[derive(Debug, Clone)]
pub struct FormatSources {
    pub harlowe: String,
    pub chapbook: String,
    pub snowman: String,
    pub sugarcube: String,
}

impl StoryFormat {
    /// The name of the format, as story metadata spells it.
    pub open spec fn name(self) -> Seq<char> {
        match self {
            StoryFormat::Harlowe => "Harlowe"@,
            StoryFormat::Chapbook => "Chapbook"@,
            StoryFormat::Snowman => "Snowman"@,
            StoryFormat::Sugarcube => "SugarCube"@,
        }
    }

    /// The version of the format that is bundled.
    pub open spec fn version(self) -> Seq<char> {
        match self {
            StoryFormat::Harlowe => "3.3.8"@,
            StoryFormat::Chapbook => "1.2.3"@,
            StoryFormat::Snowman => "2.0.2"@,
            StoryFormat::Sugarcube => "2.36.1"@,
        }
    }

    /// The format that `name` names.
    pub open spec fn named(name: Seq<char>) -> Option<StoryFormat> {
        if name == "Harlowe"@ {
            Some(StoryFormat::Harlowe)
        } else if name == "Chapbook"@ {
            Some(StoryFormat::Chapbook)
        } else if name == "Snowman"@ {
            Some(StoryFormat::Snowman)
        } else if name == "SugarCube"@ {
            Some(StoryFormat::Sugarcube)
        } else {
            None
        }
    }

    /// The source text of the format among `sources`.
    pub open spec fn source(self, sources: FormatSources) -> Seq<char> {
        match self {
            StoryFormat::Harlowe => sources.harlowe@,
            StoryFormat::Chapbook => sources.chapbook@,
            StoryFormat::Snowman => sources.snowman@,
            StoryFormat::Sugarcube => sources.sugarcube@,
        }
    }

    /// The name of the format, as story metadata spells it.
    pub fn format_name(&self) -> (r: String)
        ensures
            r@ == self.name(),
    {
        match self {
            StoryFormat::Harlowe => "Harlowe".to_owned(),
            StoryFormat::Chapbook => "Chapbook".to_owned(),
            StoryFormat::Snowman => "Snowman".to_owned(),
            StoryFormat::Sugarcube => "SugarCube".to_owned(),
        }
    }

    /// The format that `name` names; the name comes back as the error
    /// where it names none.
    pub fn from_name(name: &str) -> (r: Result<StoryFormat, UnknownStoryFormat>)
        ensures
            match StoryFormat::named(name@) {
                Some(f) => r == Ok::<StoryFormat, UnknownStoryFormat>(f),
                None => r is Err && r->Err_0.0@ == name@,
            },
    {
        if same_text(name, "Harlowe") {
            Ok(StoryFormat::Harlowe)
        } else if same_text(name, "Chapbook") {
            Ok(StoryFormat::Chapbook)
        } else if same_text(name, "Snowman") {
            Ok(StoryFormat::Snowman)
        } else if same_text(name, "SugarCube") {
            Ok(StoryFormat::Sugarcube)
        } else {
            Err(UnknownStoryFormat(name.to_owned()))
        }
    }

    /// The version of the format that is bundled.
    pub fn format_version(&self) -> (r: String)
        ensures
            r@ == self.version(),
    {
        match self {
            StoryFormat::Harlowe => "3.3.8".to_owned(),
            StoryFormat::Chapbook => "1.2.3".to_owned(),
            StoryFormat::Snowman => "2.0.2".to_owned(),
            StoryFormat::Sugarcube => "2.36.1".to_owned(),
        }
    }

    /// The source text of the format among `sources`.
    pub fn format_contents(&self, sources: &FormatSources) -> (r: String)
        ensures
            r@ == self.source(*sources),
    {
        match self {
            StoryFormat::Harlowe => sources.harlowe.clone(),
            StoryFormat::Chapbook => sources.chapbook.clone(),
            StoryFormat::Snowman => sources.snowman.clone(),
            StoryFormat::Sugarcube => sources.sugarcube.clone(),
        }
    }
}

/// Every format is the one that its name names.
pub proof fn lemma_name_round_trip(f: StoryFormat)
    ensures
        StoryFormat::named(f.name()) == Some(f),
{
    reveal_strlit("Harlowe");
    reveal_strlit("Chapbook");
    reveal_strlit("Snowman");
    reveal_strlit("SugarCube");
    assert("Chapbook"@[0] != "Harlowe"@[0]);
    assert("Snowman"@[0] != "Harlowe"@[0]);
    assert("SugarCube"@[1] != "Snowman"@[1]);
    assert("Snowman"@[0] != "Chapbook"@[0]);
    assert("SugarCube"@[0] != "Chapbook"@[0]);
    assert("SugarCube"@[0] != "Harlowe"@[0]);
}

/// The upper-case hexadecimal digit of a number below sixteen.
pub open spec fn hex_digit(d: nat) -> char {
    if d < 10 {
        crate::text::digit_char(d)
    } else if d == 10 {
        'A'
    } else if d == 11 {
        'B'
    } else if d == 12 {
        'C'
    } else if d == 13 {
        'D'
    } else if d == 14 {
        'E'
    } else {
        'F'
    }
}

/// A byte in upper-case hexadecimal, without a leading zero.
pub open spec fn hex_byte(b: u8) -> Seq<char> {
    if b < 16 {
        seq![hex_digit(b as nat)]
    } else {
        seq![hex_digit((b / 16) as nat), hex_digit((b % 16) as nat)]
    }
}

/// The bytes of `bytes` from `lo` up to `hi` in hexadecimal, in a row.
pub open spec fn hex_bytes(bytes: Seq<u8>, lo: int, hi: int) -> Seq<char>
    decreases hi - lo,
{
    if hi <= lo {
        Seq::empty()
    } else {
        hex_bytes(bytes, lo, hi - 1) + hex_byte(bytes[hi - 1])
    }
}

/// The identifier that sixteen bytes spell: five groups of four, two, two,
/// two and six bytes in hexadecimal, with hyphens between them.
pub open spec fn ifid_text(bytes: Seq<u8>) -> Seq<char> {
    hex_bytes(bytes, 0, 4) + seq!['-'] + hex_bytes(bytes, 4, 6) + seq!['-'] + hex_bytes(
        bytes,
        6,
        8,
    ) + seq!['-'] + hex_bytes(bytes, 8, 10) + seq!['-'] + hex_bytes(bytes, 10, 16)
}

fn hex_char(d: u8) -> (c: char)
    requires
        d < 16,
    ensures
        c == hex_digit(d as nat),
{
    if d == 0 {
        '0'
    } else if d == 1 {
        '1'
    } else if d == 2 {
        '2'
    } else if d == 3 {
        '3'
    } else if d == 4 {
        '4'
    } else if d == 5 {
        '5'
    } else if d == 6 {
        '6'
    } else if d == 7 {
        '7'
    } else if d == 8 {
        '8'
    } else if d == 9 {
        '9'
    } else if d == 10 {
        'A'
    } else if d == 11 {
        'B'
    } else if d == 12 {
        'C'
    } else if d == 13 {
        'D'
    } else if d == 14 {
        'E'
    } else {
        'F'
    }
}

fn push_hex(out: &mut Vec<char>, bytes: &[u8; 16], lo: usize, hi: usize)
    requires
        lo <= hi <= 16,
    ensures
        final(out)@ == old(out)@ + hex_bytes(bytes@, lo as int, hi as int),
{
    let mut i: usize = lo;
    assert(out@ =~= old(out)@ + hex_bytes(bytes@, lo as int, lo as int));
    while i < hi
        invariant
            lo <= i <= hi <= 16,
            out@ == old(out)@ + hex_bytes(bytes@, lo as int, i as int),
        decreases hi - i,
    {
        let b = bytes[i];
        let ghost before = hex_bytes(bytes@, lo as int, i as int);
        if b < 16 {
            out.push(hex_char(b));
            assert(out@ =~= old(out)@ + (before + hex_byte(b)));
        } else {
            out.push(hex_char(b / 16));
            out.push(hex_char(b % 16));
            assert(out@ =~= old(out)@ + (before + hex_byte(b)));
        }
        i += 1;
    }
}

/// Spells sixteen bytes as a story identifier.
pub fn ifid_from_bytes(bytes: &[u8; 16]) -> (r: String)
    ensures
        r@ == ifid_text(bytes@),
{
    let mut out: Vec<char> = Vec::new();
    push_hex(&mut out, bytes, 0, 4);
    out.push('-');
    push_hex(&mut out, bytes, 4, 6);
    out.push('-');
    push_hex(&mut out, bytes, 6, 8);
    out.push('-');
    push_hex(&mut out, bytes, 8, 10);
    out.push('-');
    push_hex(&mut out, bytes, 10, 16);
    assert(out@ =~= ifid_text(bytes@));
    string_from_chars(&out)
}

/// Sixteen bytes from a `rand::rngs::StdRng` that `SeedableRng::from_rng`
/// seeds from `rand::rngs::OsRng`; `None` where the system gives no
/// entropy.  Nothing is known of the bytes.
#[verifier::external_body]
fn entropy_bytes() -> Option<[u8; 16]> {
    let mut rng = <rand::rngs::StdRng as rand::SeedableRng>::from_rng(rand::rngs::OsRng).ok()?;
    let mut bytes = [0u8; 16];
    rand::RngCore::fill_bytes(&mut rng, &mut bytes);
    Some(bytes)
}

/// A fresh story identifier; `None` where the system gives no entropy.
pub fn gen_ifid() -> (r: Option<String>)
    ensures
        r matches Some(id) ==> exists|bytes: Seq<u8>| bytes.len() == 16 && id@ == ifid_text(bytes),
{
    match entropy_bytes() {
        Some(bytes) => Some(ifid_from_bytes(&bytes)),
        None => None,
    }
}

} // verus!
