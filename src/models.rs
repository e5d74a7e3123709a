use vstd::prelude::*;

verus! {

/// One entry of an exchange's symbol catalog.
#[derive(Clone, Debug)]
pub struct ExchangeSymbol {
    pub code: String,
    pub name: String,
    pub country: String,
    pub exchange: String,
    pub currency: String,
    pub symbol_type: String,
    pub isin: Option<String>,
}

/// The canonical identity of a symbol: `"{code}.{exchange}"`.
pub open spec fn key_of(code: Seq<char>, exchange: Seq<char>) -> Seq<char> {
    code + seq!['.'] + exchange
}

/// Builds the canonical identity `"{code}.{exchange}"`.
pub fn symbol_key(code: &str, exchange: &str) -> (r: String)
    ensures
        r@ == key_of(code@, exchange@),
{
    let mut r = String::from_str(code);
    r.append(".");
    r.append(exchange);
    proof {
        reveal_strlit(".");
    }
    r
}

impl ExchangeSymbol {
    /// The canonical identity of this symbol.
    pub fn key(&self) -> (r: String)
        ensures
            r@ == key_of(self.code@, self.exchange@),
    {
        symbol_key(self.code.as_str(), self.exchange.as_str())
    }
}

/// What `str::to_uppercase` makes of a string: its upper-case form by the
/// Unicode mapping, which depends on the characters alone.
pub uninterp spec fn upper_of(s: Seq<char>) -> Seq<char>;

/// Relies on `str::to_uppercase`: the upper-case form of `s`.
#[verifier::external_body]
fn to_upper(s: &str) -> (r: String)
    ensures
        r@ == upper_of(s@),
{
    s.to_uppercase()
}

/// Brings the ticker codes of a selective sync to the provider's upper-case
/// form, in order.
pub fn normalize_codes(codes: &Vec<String>) -> (r: Vec<String>)
    ensures
        r@.len() == codes@.len(),
        forall|i: int| 0 <= i < codes@.len() ==> #[trigger] r@[i]@ == upper_of(codes@[i]@),
{
    let mut r: Vec<String> = Vec::with_capacity(codes.len());
    let mut i: usize = 0;
    while i < codes.len()
        invariant
            i <= codes.len(),
            r@.len() == i,
            forall|j: int| 0 <= j < i ==> #[trigger] r@[j]@ == upper_of(codes@[j]@),
        decreases codes.len() - i,
    {
        r.push(to_upper(codes[i].as_str()));
        i = i + 1;
    }
    r
}

} // verus!
