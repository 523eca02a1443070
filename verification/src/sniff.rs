//! Format detection by magic bytes.
use vstd::prelude::*;

verus! {

#[derive(Debug, Clone, Copy, PartialEq, Eq, Structural)]
pub enum Format {
    Pdf,
}

/// The five bytes `%PDF-` start at offset `i`.
pub open spec fn pdf_marker_at(bytes: Seq<u8>, i: int) -> bool {
    0 <= i && i + 5 <= bytes.len() && bytes[i] == 0x25u8 && bytes[i + 1] == 0x50u8 && bytes[i + 2]
        == 0x44u8 && bytes[i + 3] == 0x46u8 && bytes[i + 4] == 0x2du8
}

/// The PDF header may start anywhere within the first 1024 bytes.
pub open spec fn is_pdf(bytes: Seq<u8>) -> bool {
    exists|i: int| 0 <= i < 1024 && #[trigger] pdf_marker_at(bytes, i)
}

/// PDF allows the `%PDF-` header to *start* anywhere within the first 1024
/// bytes. The marker is 5 bytes, so a header starting at offset 1023 ends at
/// 1027; only matches whose start offset is below 1024 count.
pub fn sniff_format(bytes: &[u8]) -> (r: Option<Format>)
    ensures
        r == (if is_pdf(bytes@) {
            Some(Format::Pdf)
        } else {
            None
        }),
{
    let mut i: usize = 0;
    while i < 1024 && i + 5 <= bytes.len()
        invariant
            forall|k: int| 0 <= k < i ==> !pdf_marker_at(bytes@, k),
        decreases 1024 - i,
    {
        if bytes[i] == 0x25 && bytes[i + 1] == 0x50 && bytes[i + 2] == 0x44 && bytes[i + 3] == 0x46
            && bytes[i + 4] == 0x2d {
            assert(pdf_marker_at(bytes@, i as int));
            return Some(Format::Pdf);
        }
        i += 1;
    }
    assert forall|k: int| 0 <= k < 1024 implies !#[trigger] pdf_marker_at(bytes@, k) by {
        if k >= i {
            assert(k + 5 > bytes@.len());
        }
    }
    None
}

} // verus!
