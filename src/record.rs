//! Result records: one matching establishment and its distance from the query.
use vstd::prelude::*;

verus! {

/// One matching establishment, with the distance between its postal code and
/// the queried one.
#[derive(Clone, Debug, PartialEq, Eq)]
pub struct Record {
    pub nomefantasia: String,
    pub tipologradouro: String,
    pub logradouro: String,
    pub numero: String,
    pub complemento: String,
    pub bairro: String,
    /// The establishment's own postal code, as it stood in the data.
    pub cep: String,
    pub distance: i64,
}

/// Mathematical model of a [`Record`]: its texts as character sequences.
pub struct RecordView {
    pub nomefantasia: Seq<char>,
    pub tipologradouro: Seq<char>,
    pub logradouro: Seq<char>,
    pub numero: Seq<char>,
    pub complemento: Seq<char>,
    pub bairro: Seq<char>,
    pub cep: Seq<char>,
    pub distance: int,
}

impl View for Record {
    type V = RecordView;

    open spec fn view(&self) -> RecordView {
        RecordView {
            nomefantasia: self.nomefantasia@,
            tipologradouro: self.tipologradouro@,
            logradouro: self.logradouro@,
            numero: self.numero@,
            complemento: self.complemento@,
            bairro: self.bairro@,
            cep: self.cep@,
            distance: self.distance as int,
        }
    }
}

/// The models of a sequence of records, in order.
pub open spec fn views_of(s: Seq<Record>) -> Seq<RecordView> {
    s.map_values(|r: Record| r@)
}

} // verus!
