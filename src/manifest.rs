use vstd::prelude::*;

use crate::naming::{append_decimal, decimal};
use crate::size::{format_size, size_text};

verus! {

/// What the trailer says of one fragmented entry.
pub struct ManifestRecord {
    /// The entry's name in the source archive.
    pub name: String,
    /// How many fragments it was cut into.
    pub parts: usize,
    /// The size cap that each fragment respects.
    pub cap: u64,
    /// The entry's declared size.
    pub size: u64,
}

/// The text block written before the list of fragmented entries.
pub open spec fn manifest_header() -> Seq<char> {
    MANIFEST_HEADER@
}

/// The text block written after the list of fragmented entries.
pub open spec fn manifest_footer() -> Seq<char> {
    MANIFEST_FOOTER@
}

/// The one-line summary of a fragmented entry.
pub open spec fn record_text(name: Seq<char>, parts: nat, cap: nat, size: nat) -> Seq<char> {
    "SPLIT: "@ + name + " -> "@ + decimal(parts) + " parts ("@ + size_text(cap) + " each, original: "@
        + size_text(size) + ")"@
}

/// The bullet lines of the first `n` records.
pub open spec fn bullet_lines(lines: Seq<Seq<char>>) -> Seq<char>
    decreases lines.len(),
{
    if lines.len() == 0 {
        Seq::empty()
    } else {
        bullet_lines(lines.drop_last()) + "• "@ + lines.last() + "\n"@
    }
}

/// The full manifest text for the given summary lines.
pub open spec fn manifest_text(lines: Seq<Seq<char>>) -> Seq<char> {
    manifest_header() + bullet_lines(lines) + manifest_footer()
}

/// The name of the trailer entry.
pub const MANIFEST_NAME: &'static str = "_MANIFEST.txt";

/// Header of the trailer: what it is and how to reassemble fragments.
pub const MANIFEST_HEADER: &'static str = "═══════════════════════════════════════════════════════════════════
                         SHARD-A-ZIP MANIFEST
═══════════════════════════════════════════════════════════════════

This archive was created by Shard-A-Zip. Some files were too large
to fit within the 25MB limit and have been split into parts.

HOW TO REJOIN SPLIT FILES:
--------------------------
1. Extract all ZIP files to the same directory
2. For each split file (*.part001, *.part002, etc.), run:

   Windows (PowerShell):
   Get-Content file.ext.part* -Raw | Set-Content file.ext -NoNewline

   Windows (CMD):
   copy /b file.ext.part001+file.ext.part002+... file.ext

   Linux/macOS:
   cat file.ext.part* > file.ext

SPLIT FILES IN THIS ARCHIVE:
----------------------------
";

/// Footer of the trailer.
pub const MANIFEST_FOOTER: &'static str = "
═══════════════════════════════════════════════════════════════════
";

/// The summary line `SPLIT: <name> -> <n> parts (<cap> each, original: <size>)`.
pub fn describe(record: &ManifestRecord) -> (r: String)
    ensures
        r@ == record_text(record.name@, record.parts as nat, record.cap as nat, record.size as nat),
{
    proof {
        reveal_strlit("SPLIT: ");
        reveal_strlit(" -> ");
        reveal_strlit(" parts (");
        reveal_strlit(" each, original: ");
        reveal_strlit(")");
    }
    let mut s = String::new();
    s.append("SPLIT: ");
    s.append(record.name.as_str());
    s.append(" -> ");
    append_decimal(&mut s, record.parts as u64);
    s.append(" parts (");
    let cap = format_size(record.cap);
    s.append(cap.as_str());
    s.append(" each, original: ");
    let size = format_size(record.size);
    s.append(size.as_str());
    s.append(")");
    assert(s@ =~= record_text(record.name@, record.parts as nat, record.cap as nat, record.size as nat));
    s
}

/// The manifest text: the header, one bullet line per summary line, the footer.
pub fn generate_manifest(entries: &[String]) -> (r: String)
    ensures
        r@ == manifest_text(entries@.map_values(|e: String| e@)),
{
    let ghost lines = entries@.map_values(|e: String| e@);
    let mut s = String::from_str(MANIFEST_HEADER);
    let mut i: usize = 0;
    proof {
        reveal_strlit("• ");
        reveal_strlit("\n");
        assert(lines.subrange(0, 0) =~= Seq::<Seq<char>>::empty());
    }
    while i < entries.len()
        invariant
            i <= entries@.len(),
            lines == entries@.map_values(|e: String| e@),
            s@ == manifest_header() + bullet_lines(lines.subrange(0, i as int)),
        decreases entries@.len() - i,
    {
        s.append("• ");
        s.append(entries[i].as_str());
        s.append("\n");
        proof {
            assert(lines.subrange(0, i + 1).drop_last() =~= lines.subrange(0, i as int));
        }
        i = i + 1;
        assert(s@ =~= manifest_header() + bullet_lines(lines.subrange(0, i as int)));
    }
    assert(lines.subrange(0, i as int) =~= lines);
    s.append(MANIFEST_FOOTER);
    assert(s@ =~= manifest_text(lines));
    s
}

} // verus!
