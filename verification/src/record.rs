//! The wire form of an analysis record.
//!
//! One record is one line of text: the loudness field, then one field per
//! band, separated by commas and ended by a newline. The fields come already
//! formatted, each a decimal number.

use vstd::prelude::*;

verus! {

/// The band fields, each behind a comma.
pub open spec fn band_text(bands: Seq<Seq<char>>) -> Seq<char>
    decreases bands.len(),
{
    if bands.len() == 0 {
        Seq::empty()
    } else {
        band_text(bands.drop_last()) + seq![','] + bands.last()
    }
}

/// The line `rms,band_0,...,band_last` with its newline.
pub open spec fn record_text(rms: Seq<char>, bands: Seq<Seq<char>>) -> Seq<char> {
    rms + band_text(bands) + seq!['\n']
}

/// The texts of a list of fields.
pub open spec fn field_texts(fields: Seq<String>) -> Seq<Seq<char>> {
    Seq::new(fields.len(), |i: int| fields[i]@)
}

/// Frames the formatted fields of one analysis as a record.
pub fn format_record(rms: &str, bands: &[String]) -> (record: String)
    ensures
        record@ == record_text(rms@, field_texts(bands@)),
{
    let mut record: String = String::from_str(rms);
    let mut done: usize = 0;
    while done < bands.len()
        invariant
            done <= bands.len(),
            record@ == rms@ + band_text(field_texts(bands@).take(done as int)),
        decreases bands.len() - done,
    {
        proof {
            reveal_strlit(",");
            let before = field_texts(bands@).take(done as int);
            let after = field_texts(bands@).take(done + 1);
            assert(after.drop_last() =~= before);
            assert(after.last() == bands[done as int]@);
            assert(",".view() =~= seq![',']);
        }
        record.append(",");
        record.append(bands[done].as_str());
        done += 1;
    }
    proof {
        reveal_strlit("\n");
        assert("\n".view() =~= seq!['\n']);
        assert(field_texts(bands@).take(done as int) =~= field_texts(bands@));
    }
    record.append("\n");
    record
}

} // verus!
