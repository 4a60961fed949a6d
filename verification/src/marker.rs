//! Listing the markers of a JPEG byte stream.

use vstd::prelude::*;
use vstd::string::StringExecFns;
use crate::primitives::JpegError;
use crate::reader::{be16, read_u16, read_u8};

verus! {

/// What `marker_info` says of a marker.
pub open spec fn marker_description(marker: u8) -> Seq<char> {
    if marker == 0xE0 {
        "APP0, JFIF 的額外資訊"@
    } else if marker == 0xDB {
        "DQT, define quantization table, 定義量化表"@
    } else if marker == 0xC4 {
        "DHT, define huffman table, 定義霍夫曼表"@
    } else if marker == 0xC0 {
        "SOF0, start of frame(baseline)"@
    } else if marker == 0xDA {
        "SOS, start of scan, 壓縮的數據由此開始"@
    } else {
        "本程式不支援"@
    }
}

/// A description of the segment that a marker starts.
pub fn marker_info(marker: u8) -> (s: String)
    ensures
        s@ == marker_description(marker),
{
    let text = match marker {
        0xE0 => "APP0, JFIF 的額外資訊",
        0xDB => "DQT, define quantization table, 定義量化表",
        0xC4 => "DHT, define huffman table, 定義霍夫曼表",
        0xC0 => "SOF0, start of frame(baseline)",
        0xDA => "SOS, start of scan, 壓縮的數據由此開始",
        _ => "本程式不支援",
    };
    String::from_str(text)
}

/// A marker found in a byte stream.
#[derive(Clone, Copy, Debug, PartialEq, Eq, Structural)]
pub enum MarkerEntry {
    /// 0xFF 0xD8.
    StartOfImage,
    /// 0xFF 0xD9.
    EndOfImage,
    /// Any other marker, with the 16-bit number that follows it.
    Segment { marker: u8, length: u16 },
}

/// The markers from `p` on, after those in `acc`: bytes are skipped up to
/// a 0xFF; the byte after it is the marker, where 0x00 marks a stuffed
/// 0xFF and no marker. Each other marker but the start and end of image is
/// followed by a two-byte length, and the scan goes on after that length
/// (not after the segment). The scan ends at the end-of-image marker; the
/// entries found before a failing read are given with the error.
pub open spec fn spec_marker_scan(data: Seq<u8>, p: int, acc: Seq<MarkerEntry>)
    -> (Seq<MarkerEntry>, Result<(), JpegError>)
    decreases data.len() - p,
{
    if p < 0 || p >= data.len() {
        (acc, Err(JpegError::UnexpectedEof))
    } else if data[p] != 0xFF {
        spec_marker_scan(data, p + 1, acc)
    } else if p + 1 >= data.len() {
        (acc, Err(JpegError::UnexpectedEof))
    } else {
        let m = data[p + 1];
        if m == 0x00 {
            spec_marker_scan(data, p + 2, acc)
        } else if m == 0xD8 {
            spec_marker_scan(data, p + 2, acc.push(MarkerEntry::StartOfImage))
        } else if m == 0xD9 {
            (acc.push(MarkerEntry::EndOfImage), Ok(()))
        } else if p + 4 > data.len() {
            (acc, Err(JpegError::UnexpectedEof))
        } else {
            spec_marker_scan(data, p + 4, acc.push(MarkerEntry::Segment { marker: m, length: be16(data, p + 2) }))
        }
    }
}

/// Lists the markers of a byte stream, up to the end-of-image marker.
pub fn scan_markers(data: &[u8]) -> (r: (Vec<MarkerEntry>, Result<(), JpegError>))
    ensures
        (r.0@, r.1) == spec_marker_scan(data@, 0, Seq::empty()),
{
    let _ = data.len(); // the length of a slice fits in a usize
    let mut entries: Vec<MarkerEntry> = Vec::new();
    let mut p: usize = 0;
    loop
        invariant
            p <= data@.len(),
            spec_marker_scan(data@, p as int, entries@) == spec_marker_scan(data@, 0, Seq::empty()),
        decreases data@.len() - p,
    {
        let (c, p1) = match read_u8(data, p) {
            Ok(v) => v,
            Err(e) => return (entries, Err(e)),
        };
        if c != 0xFF {
            p = p1;
            continue;
        }
        let (m, p2) = match read_u8(data, p1) {
            Ok(v) => v,
            Err(e) => return (entries, Err(e)),
        };
        if m == 0x00 {
            p = p2;
        } else if m == 0xD8 {
            entries.push(MarkerEntry::StartOfImage);
            p = p2;
        } else if m == 0xD9 {
            entries.push(MarkerEntry::EndOfImage);
            return (entries, Ok(()));
        } else {
            let (length, p3) = match read_u16(data, p2) {
                Ok(v) => v,
                Err(e) => return (entries, Err(e)),
            };
            entries.push(MarkerEntry::Segment { marker: m, length });
            p = p3;
        }
    }
}


/// The marker scan succeeds exactly when it finds the end-of-image marker,
/// which is then its last entry; the entries before it are starts of
/// image and segments.
pub proof fn lemma_marker_scan_ends(data: Seq<u8>, p: int, acc: Seq<MarkerEntry>)
    requires
        forall|k: int| 0 <= k < acc.len() ==> #[trigger] acc[k] != MarkerEntry::EndOfImage,
    ensures
        ({
            let (entries, result) = spec_marker_scan(data, p, acc);
            &&& result is Ok <==> entries.contains(MarkerEntry::EndOfImage)
            &&& result is Ok ==> entries.last() == MarkerEntry::EndOfImage
            &&& forall|k: int| 0 <= k < entries.len() - 1 ==> #[trigger] entries[k] != MarkerEntry::EndOfImage
            &&& acc.is_prefix_of(entries)
        }),
    decreases data.len() - p,
{
    if p < 0 || p >= data.len() {
    } else if data[p] != 0xFF {
        lemma_marker_scan_ends(data, p + 1, acc);
    } else if p + 1 >= data.len() {
    } else {
        let m = data[p + 1];
        if m == 0x00 {
            lemma_marker_scan_ends(data, p + 2, acc);
        } else if m == 0xD8 {
            lemma_marker_scan_ends(data, p + 2, acc.push(MarkerEntry::StartOfImage));
            assert(acc.is_prefix_of(acc.push(MarkerEntry::StartOfImage)));
        } else if m == 0xD9 {
            let entries = acc.push(MarkerEntry::EndOfImage);
            assert(entries[entries.len() - 1] == MarkerEntry::EndOfImage);
            assert(acc.is_prefix_of(entries));
        } else if p + 4 > data.len() {
        } else {
            let e = MarkerEntry::Segment { marker: m, length: be16(data, p + 2) };
            lemma_marker_scan_ends(data, p + 4, acc.push(e));
            assert(acc.is_prefix_of(acc.push(e)));
        }
    }
    let (entries, result) = spec_marker_scan(data, p, acc);
    if !(result is Ok) {
        if entries.contains(MarkerEntry::EndOfImage) {
            let k = choose|k: int| 0 <= k < entries.len() && entries[k] == MarkerEntry::EndOfImage;
            assert(false) by {
                if k < entries.len() - 1 {
                } else {
                    assert(entries.len() >= 1);
                }
            }
        }
    }
}

}
