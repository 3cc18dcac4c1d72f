//! The record writer: renders records back to tab-delimited text, one
//! line per record, substituting translated names when a translator is
//! present.  Pure serialization — no filtering, no reordering; the
//! surrounding program owns the actual output channel.

use vstd::prelude::*;
use vstd::string::StringExecFns;
use crate::record::{Record, RecordFormat, Strand, GiaError};
use crate::translate::Translater;

verus! {

/// The decimal digit characters.
pub open spec fn dec_digit(d: int) -> char {
    if d == 0 { '0' }
    else if d == 1 { '1' }
    else if d == 2 { '2' }
    else if d == 3 { '3' }
    else if d == 4 { '4' }
    else if d == 5 { '5' }
    else if d == 6 { '6' }
    else if d == 7 { '7' }
    else if d == 8 { '8' }
    else { '9' }
}

/// A number in decimal, most significant digit first.
pub open spec fn dec_seq(n: nat) -> Seq<char>
    decreases n,
{
    if n < 10 {
        seq![dec_digit(n as int)]
    } else {
        dec_seq(n / 10).push(dec_digit((n % 10) as int))
    }
}

/// A score in tenths, written with exactly one decimal digit.
pub open spec fn score_seq(t: u64) -> Seq<char> {
    dec_seq((t / 10) as nat) + seq!['.'] + dec_seq((t % 10) as nat)
}

/// The single strand character.
pub open spec fn strand_seq(s: Strand) -> Seq<char> {
    match s {
        Strand::Plus => seq!['+'],
        Strand::Minus => seq!['-'],
        Strand::Dot => seq!['.'],
    }
}

/// The token written for an id: the translated name when names are
/// present, the id's decimal digits otherwise.
pub open spec fn id_token(id: u32, names: Option<Seq<Seq<char>>>) -> Seq<char> {
    match names {
        None => dec_seq(id as nat),
        Some(ns) => if id < ns.len() {
            ns[id as int]
        } else {
            Seq::empty()
        },
    }
}

/// One output line for a record.
pub open spec fn line_seq(r: Record, names: Option<Seq<Seq<char>>>, fmt: RecordFormat) -> Seq<char> {
    let head = id_token(r.chr, names) + seq!['\t']
        + dec_seq(r.start as nat) + seq!['\t'] + dec_seq(r.end as nat);
    match fmt {
        RecordFormat::Bed3 => head + seq!['\n'],
        RecordFormat::Bed6 => head + seq!['\t'] + id_token(r.name, names) + seq!['\t']
            + score_seq(r.score_tenths) + seq!['\t'] + strand_seq(r.strand) + seq!['\n'],
    }
}

/// The full text for a record sequence: its lines in order.
pub open spec fn text_seq(s: Seq<Record>, names: Option<Seq<Seq<char>>>, fmt: RecordFormat) -> Seq<char>
    decreases s.len(),
{
    if s.len() == 0 {
        Seq::empty()
    } else {
        text_seq(s.drop_last(), names, fmt) + line_seq(s.last(), names, fmt)
    }
}

/// Every id a line would print resolves in a name table of `n` entries.
pub open spec fn ids_in_range(s: Seq<Record>, n: int, fmt: RecordFormat) -> bool {
    forall|i: int| 0 <= i < s.len()
        ==> (#[trigger] s[i]).chr < n && (fmt is Bed6 ==> s[i].name < n)
}

/// Relies on u64's `Display` implementation: it renders the value as its
/// decimal digits, nothing else.
#[verifier::external_body]
fn u64_to_string(x: u64) -> (r: String)
    ensures
        r@ == dec_seq(x as nat),
{
    format!("{}", x)
}

/// Append a number's decimal form.
fn push_dec(out: &mut String, x: u64)
    ensures
        final(out)@ == old(out)@ + dec_seq(x as nat),
{
    let piece = u64_to_string(x);
    out.append(piece.as_str());
}

/// Append a score with one decimal digit.
fn push_score(out: &mut String, t: u64)
    ensures
        final(out)@ == old(out)@ + score_seq(t),
{
    let ghost start = out@;
    push_dec(out, t / 10);
    proof {
        reveal_strlit(".");
        assert("."@ =~= seq!['.']);
    }
    out.append(".");
    push_dec(out, t % 10);
    proof {
        assert(out@ =~= start + score_seq(t));
    }
}

/// Append the strand character.
fn push_strand(out: &mut String, s: Strand)
    ensures
        final(out)@ == old(out)@ + strand_seq(s),
{
    proof {
        reveal_strlit("+");
        reveal_strlit("-");
        reveal_strlit(".");
        assert("+"@ =~= seq!['+']);
        assert("-"@ =~= seq!['-']);
        assert("."@ =~= seq!['.']);
    }
    match s {
        Strand::Plus => out.append("+"),
        Strand::Minus => out.append("-"),
        Strand::Dot => out.append("."),
    }
}

/// Append one record's line with numeric id tokens.
fn push_line_plain(out: &mut String, r: &Record, fmt: RecordFormat)
    ensures
        final(out)@ == old(out)@ + line_seq(*r, None, fmt),
{
    let ghost start = out@;
    proof {
        reveal_strlit("\t");
        reveal_strlit("\n");
        assert("\t"@ =~= seq!['\t']);
        assert("\n"@ =~= seq!['\n']);
    }
    push_dec(out, r.chr as u64);
    out.append("\t");
    push_dec(out, r.start);
    out.append("\t");
    push_dec(out, r.end);
    match fmt {
        RecordFormat::Bed3 => {
            out.append("\n");
        },
        RecordFormat::Bed6 => {
            out.append("\t");
            push_dec(out, r.name as u64);
            out.append("\t");
            push_score(out, r.score_tenths);
            out.append("\t");
            push_strand(out, r.strand);
            out.append("\n");
        },
    }
    proof {
        assert(out@ =~= start + line_seq(*r, None, fmt));
    }
}

/// Append one record's line with translated name tokens.
fn push_line_named(out: &mut String, r: &Record, tr: &Translater, fmt: RecordFormat) -> (res: Result<(), GiaError>)
    ensures
        res is Ok <==> r.chr < tr.names_view().len()
            && (fmt is Bed6 ==> r.name < tr.names_view().len()),
        res is Ok ==> final(out)@ == old(out)@ + line_seq(*r, Some(tr.names_view()), fmt),
        res matches Err(e) ==> e is UnknownId && final(out)@ == old(out)@,
{
    let ghost start = out@;
    proof {
        reveal_strlit("\t");
        reveal_strlit("\n");
        assert("\t"@ =~= seq!['\t']);
        assert("\n"@ =~= seq!['\n']);
    }
    let chr_name = match tr.get_name(r.chr) {
        Ok(s) => s,
        Err(e) => {
            return Err(e);
        },
    };
    let name_name = match fmt {
        RecordFormat::Bed3 => String::new(),
        RecordFormat::Bed6 => match tr.get_name(r.name) {
            Ok(s) => s,
            Err(e) => {
                return Err(e);
            },
        },
    };
    out.append(chr_name.as_str());
    out.append("\t");
    push_dec(out, r.start);
    out.append("\t");
    push_dec(out, r.end);
    match fmt {
        RecordFormat::Bed3 => {
            out.append("\n");
        },
        RecordFormat::Bed6 => {
            out.append("\t");
            out.append(name_name.as_str());
            out.append("\t");
            push_score(out, r.score_tenths);
            out.append("\t");
            push_strand(out, r.strand);
            out.append("\n");
        },
    }
    proof {
        assert(out@ =~= start + line_seq(*r, Some(tr.names_view()), fmt));
    }
    Ok(())
}

/// Serialization of a whole record set with numeric id tokens; writing it
/// out is the surrounding program's job.
pub trait WriteIter {
    fn write_iter(records: &Vec<Record>, fmt: RecordFormat) -> (r: String)
        ensures
            r@ == text_seq(records@, None, fmt),
    ;
}

pub struct WriteIterImpl;

impl WriteIter for WriteIterImpl {
    fn write_iter(records: &Vec<Record>, fmt: RecordFormat) -> (r: String) {
        let ghost rs = records@;
        let mut out = String::new();
        let mut i: usize = 0;
        while i < records.len()
            invariant
                0 <= i <= rs.len(),
                records@ == rs,
                out@ == text_seq(rs.take(i as int), None, fmt),
            decreases rs.len() - i,
        {
            push_line_plain(&mut out, &records[i], fmt);
            proof {
                assert(rs.take(i as int + 1).drop_last() =~= rs.take(i as int));
                assert(rs.take(i as int + 1).last() == rs[i as int]);
            }
            i += 1;
        }
        proof {
            assert(rs.take(rs.len() as int) =~= rs);
        }
        out
    }
}

/// Serialization of a whole record set with translated name tokens.
pub trait WriteNamedIter {
    fn write_named_iter(records: &Vec<Record>, translater: &Translater, fmt: RecordFormat) -> (r: Result<String, GiaError>)
        ensures
            r is Ok <==> ids_in_range(records@, translater.names_view().len() as int, fmt),
            r matches Ok(s) ==> s@ == text_seq(records@, Some(translater.names_view()), fmt),
            r matches Err(e) ==> e is UnknownId,
    ;
}

pub struct WriteNamedIterImpl;

impl WriteNamedIter for WriteNamedIterImpl {
    fn write_named_iter(records: &Vec<Record>, translater: &Translater, fmt: RecordFormat) -> (r: Result<String, GiaError>) {
        let ghost rs = records@;
        let mut out = String::new();
        let mut i: usize = 0;
        while i < records.len()
            invariant
                0 <= i <= rs.len(),
                records@ == rs,
                out@ == text_seq(rs.take(i as int), Some(translater.names_view()), fmt),
                ids_in_range(rs.take(i as int), translater.names_view().len() as int, fmt),
            decreases rs.len() - i,
        {
            match push_line_named(&mut out, &records[i], translater, fmt) {
                Ok(()) => (),
                Err(e) => {
                    proof {
                        assert(!ids_in_range(rs, translater.names_view().len() as int, fmt)) by {
                            assert(rs[i as int].chr >= translater.names_view().len()
                                || (fmt is Bed6 && rs[i as int].name >= translater.names_view().len()));
                        }
                    }
                    return Err(e);
                },
            }
            proof {
                assert(rs.take(i as int + 1).drop_last() =~= rs.take(i as int));
                assert(rs.take(i as int + 1).last() == rs[i as int]);
                assert forall|k: int| 0 <= k < i + 1
                    implies (#[trigger] rs.take(i as int + 1)[k]).chr < translater.names_view().len()
                        && (fmt is Bed6 ==> rs.take(i as int + 1)[k].name < translater.names_view().len()) by {
                    if k < i {
                        assert(rs.take(i as int)[k] == rs.take(i as int + 1)[k]);
                    }
                }
            }
            i += 1;
        }
        proof {
            assert(rs.take(rs.len() as int) =~= rs);
        }
        Ok(out)
    }
}

/// The writer's front door: serialize every record, translating ids to
/// names when a translator is given — a pure serialization with no
/// filtering.
pub fn write_records_iter_with(
    records: &Vec<Record>,
    translater: Option<&Translater>,
    fmt: RecordFormat,
) -> (r: Result<String, GiaError>)
    ensures
        match translater {
            None => r matches Ok(s) && s@ == text_seq(records@, None, fmt),
            Some(t) => {
                &&& (r is Ok <==> ids_in_range(records@, t.names_view().len() as int, fmt))
                &&& (r matches Ok(s) ==> s@ == text_seq(records@, Some(t.names_view()), fmt))
                &&& (r matches Err(e) ==> e is UnknownId)
            },
        },
{
    match translater {
        Some(t) => WriteNamedIterImpl::write_named_iter(records, t, fmt),
        None => Ok(WriteIterImpl::write_iter(records, fmt)),
    }
}

} // verus!
