//! Row filtering and scoring, and the scan of one data source's rows.
use vstd::prelude::*;
use crate::record::{Record, RecordView, views_of};
use crate::text::{contains_text, has_prefix, has_substring, int_or_zero, parse_int_or_zero, same_text, starts_with};

verus! {

/// One decoded data row, its positional columns held under names.
#[derive(Clone, Debug, PartialEq, Eq)]
pub struct Row {
    pub trade_name: String,
    pub street_type: String,
    pub street: String,
    pub number: String,
    pub complement: String,
    pub neighborhood: String,
    pub postal_code: String,
    pub primary_activity: String,
    pub secondary_activity: String,
    pub status: String,
}

/// Column `i` of a row's fields, or the empty text when the row is shorter.
pub open spec fn column(fields: Seq<String>, i: int) -> Seq<char> {
    if 0 <= i < fields.len() {
        fields[i]@
    } else {
        Seq::empty()
    }
}

fn take_column(fields: &Vec<String>, i: usize) -> (r: String)
    ensures
        r@ == column(fields@, i as int),
{
    if i < fields.len() {
        fields[i].clone()
    } else {
        String::new()
    }
}

impl Row {
    /// Names the columns of a decoded row: trade name, street type, street,
    /// number, complement, neighbourhood, postal code, primary activity,
    /// secondary activity, registration status. Missing columns are empty.
    pub fn from_fields(fields: &Vec<String>) -> (r: Row)
        ensures
            r.trade_name@ == column(fields@, 0),
            r.street_type@ == column(fields@, 1),
            r.street@ == column(fields@, 2),
            r.number@ == column(fields@, 3),
            r.complement@ == column(fields@, 4),
            r.neighborhood@ == column(fields@, 5),
            r.postal_code@ == column(fields@, 6),
            r.primary_activity@ == column(fields@, 7),
            r.secondary_activity@ == column(fields@, 8),
            r.status@ == column(fields@, 9),
    {
        Row {
            trade_name: take_column(fields, 0),
            street_type: take_column(fields, 1),
            street: take_column(fields, 2),
            number: take_column(fields, 3),
            complement: take_column(fields, 4),
            neighborhood: take_column(fields, 5),
            postal_code: take_column(fields, 6),
            primary_activity: take_column(fields, 7),
            secondary_activity: take_column(fields, 8),
            status: take_column(fields, 9),
        }
    }
}

/// The postal-code prefix of the served region.
pub open spec fn region_prefix() -> Seq<char> {
    seq!['7', '1']
}

/// The status code of an active registration.
pub open spec fn active_status() -> Seq<char> {
    seq!['2']
}

/// Whether a row is a candidate for a query on activity code `cnae`: its postal
/// code lies in the region, it has a trade name, its registration is active, and
/// its primary or secondary activity contains `cnae`.
pub open spec fn row_included(row: Row, cnae: Seq<char>) -> bool {
    &&& has_prefix(row.postal_code@, region_prefix())
    &&& row.trade_name@.len() > 0
    &&& row.status@ == active_status()
    &&& (has_substring(row.primary_activity@, cnae) || has_substring(row.secondary_activity@, cnae))
}

/// The row filter of a query on activity `cnae`.
pub open spec fn included_by(cnae: Seq<char>) -> spec_fn(Row) -> bool {
    |row: Row| row_included(row, cnae)
}

/// Distance between two postal codes given as numbers.
pub open spec fn abs_diff(a: int, b: int) -> int {
    if a >= b {
        a - b
    } else {
        b - a
    }
}

/// Distance of a postal code text from the queried code `base`; a text that is
/// not a decimal `i32` counts as zero.
pub open spec fn distance_of(postal_code: Seq<char>, base: int) -> int {
    abs_diff(int_or_zero(postal_code), base)
}

/// The record that an included row yields for a query on `base`.
pub open spec fn record_of(row: Row, base: int) -> RecordView {
    RecordView {
        nomefantasia: row.trade_name@,
        tipologradouro: row.street_type@,
        logradouro: row.street@,
        numero: row.number@,
        complemento: row.complement@,
        bairro: row.neighborhood@,
        cep: row.postal_code@,
        distance: distance_of(row.postal_code@, base),
    }
}

/// The records that a source's rows yield, in row order.
pub open spec fn scanned(rows: Seq<Row>, cnae: Seq<char>, base: int) -> Seq<RecordView> {
    rows.filter(included_by(cnae)).map_values(|row: Row| record_of(row, base))
}

/// Decides whether `row` answers a query on activity `cnae` near postal code
/// `base_cep`, and if so builds its record.
pub fn score_row(row: &Row, cnae: &str, base_cep: i32) -> (r: Option<Record>)
    ensures
        r is Some <==> row_included(*row, cnae@),
        r is Some ==> r->0@ == record_of(*row, base_cep as int),
{
    proof {
        reveal_strlit("71");
        reveal_strlit("2");
        assert("71"@ =~= region_prefix());
        assert("2"@ =~= active_status());
    }
    if !starts_with(row.postal_code.as_str(), "71") {
        return None;
    }
    if row.trade_name.as_str().unicode_len() == 0 || !same_text(row.status.as_str(), "2") {
        return None;
    }
    if !contains_text(row.primary_activity.as_str(), cnae)
        && !contains_text(row.secondary_activity.as_str(), cnae) {
        return None;
    }
    let code = parse_int_or_zero(row.postal_code.as_str());
    let diff: i64 = code as i64 - base_cep as i64;
    let distance: i64 = if diff < 0 {
        -diff
    } else {
        diff
    };
    Some(
        Record {
            nomefantasia: row.trade_name.clone(),
            tipologradouro: row.street_type.clone(),
            logradouro: row.street.clone(),
            numero: row.number.clone(),
            complemento: row.complement.clone(),
            bairro: row.neighborhood.clone(),
            cep: row.postal_code.clone(),
            distance,
        },
    )
}

/// Scans one source's rows in order and keeps the record of each included row.
pub fn scan_rows(rows: &Vec<Row>, cnae: &str, base_cep: i32) -> (r: Vec<Record>)
    ensures
        views_of(r@) == scanned(rows@, cnae@, base_cep as int),
{
    let mut out: Vec<Record> = Vec::new();
    let mut i: usize = 0;
    while i < rows.len()
        invariant
            0 <= i <= rows@.len(),
            views_of(out@) == scanned(rows@.take(i as int), cnae@, base_cep as int),
        decreases rows@.len() - i,
    {
        let ghost before = out@;
        let scored = score_row(&rows[i], cnae, base_cep);
        proof {
            assert(rows@.take(i + 1) == rows@.take(i as int).push(rows@[i as int]));
            rows@.take(i as int).lemma_filter_push(rows@[i as int], included_by(cnae@));
        }
        match scored {
            Some(rec) => {
                out.push(rec);
                proof {
                    assert(views_of(out@) =~= views_of(before).push(rec@));
                    let f = rows@.take(i as int).filter(included_by(cnae@));
                    assert(f.push(rows@[i as int]).map_values(|row: Row| record_of(row, base_cep as int))
                        =~= f.map_values(|row: Row| record_of(row, base_cep as int)).push(rec@));
                }
            },
            None => {},
        }
        i = i + 1;
    }
    proof {
        assert(rows@.take(rows@.len() as int) =~= rows@);
    }
    out
}

} // verus!
