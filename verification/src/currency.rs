use vstd::prelude::*;

verus! {

/// A single denomination: its value in minor units and its display names.
pub struct Denomination {
    pub cents: u32,
    pub singular: String,
    pub plural: String,
}

/// The mathematical content of a denomination: its value and the character
/// sequences of its names.
#[verifier::ext_equal]
pub ghost struct DenomModel {
    pub cents: int,
    pub singular: Seq<char>,
    pub plural: Seq<char>,
}

impl View for Denomination {
    type V = DenomModel;

    open spec fn view(&self) -> DenomModel {
        DenomModel {
            cents: self.cents as int,
            singular: self.singular@,
            plural: self.plural@,
        }
    }
}

impl Clone for Denomination {
    fn clone(&self) -> (d: Self)
        ensures
            d@ == self@,
    {
        Denomination {
            cents: self.cents,
            singular: self.singular.clone(),
            plural: self.plural.clone(),
        }
    }
}

/// A currency configuration: a name, a symbol, and denominations ordered
/// largest first.
pub struct Currency {
    pub name: String,
    pub symbol: String,
    pub denominations: Vec<Denomination>,
}

/// The mathematical content of a currency.
#[verifier::ext_equal]
pub ghost struct CurrencyModel {
    pub name: Seq<char>,
    pub symbol: Seq<char>,
    pub denominations: Seq<DenomModel>,
}

impl View for Currency {
    type V = CurrencyModel;

    open spec fn view(&self) -> CurrencyModel {
        CurrencyModel {
            name: self.name@,
            symbol: self.symbol@,
            denominations: self.denominations@.map_values(|d: Denomination| d@),
        }
    }
}

/// A denomination table is well formed when it is non-empty, strictly
/// descending by value, and ends in the one-minor-unit denomination, so that
/// every non-negative quantity is exactly representable.
pub open spec fn denoms_well_formed(d: Seq<DenomModel>) -> bool {
    &&& d.len() > 0
    &&& d[d.len() - 1].cents == 1
    &&& forall|i: int, j: int| 0 <= i < j < d.len() ==> d[i].cents > d[j].cents
}

impl Currency {
    pub open spec fn well_formed(&self) -> bool {
        denoms_well_formed(self@.denominations)
    }
}

/// Every denomination of a well-formed table is worth at least one minor unit.
pub proof fn lemma_well_formed_positive(d: Seq<DenomModel>)
    requires
        denoms_well_formed(d),
    ensures
        forall|i: int| 0 <= i < d.len() ==> #[trigger] d[i].cents >= 1,
{
    assert forall|i: int| 0 <= i < d.len() implies #[trigger] d[i].cents >= 1 by {
        if i < d.len() - 1 {
            assert(d[i].cents > d[d.len() - 1].cents);
        }
    }
}

fn denom(cents: u32, singular: &str, plural: &str) -> (d: Denomination)
    ensures
        d@ == (DenomModel { cents: cents as int, singular: singular@, plural: plural@ }),
{
    Denomination {
        cents,
        singular: String::from_str(singular),
        plural: String::from_str(plural),
    }
}

/// The model of the five-denomination United States dollar table.
pub open spec fn usd_model() -> CurrencyModel {
    CurrencyModel {
        name: "USD"@,
        symbol: "$"@,
        denominations: seq![
            DenomModel { cents: 100, singular: "dollar"@, plural: "dollars"@ },
            DenomModel { cents: 25, singular: "quarter"@, plural: "quarters"@ },
            DenomModel { cents: 10, singular: "dime"@, plural: "dimes"@ },
            DenomModel { cents: 5, singular: "nickel"@, plural: "nickels"@ },
            DenomModel { cents: 1, singular: "penny"@, plural: "pennies"@ },
        ],
    }
}

/// The model of the eight-denomination euro coin table.
pub open spec fn eur_model() -> CurrencyModel {
    CurrencyModel {
        name: "EUR"@,
        symbol: "\u{20ac}"@,
        denominations: seq![
            DenomModel { cents: 200, singular: "2 euro coin"@, plural: "2 euro coins"@ },
            DenomModel { cents: 100, singular: "1 euro coin"@, plural: "1 euro coins"@ },
            DenomModel { cents: 50, singular: "50 cent coin"@, plural: "50 cent coins"@ },
            DenomModel { cents: 20, singular: "20 cent coin"@, plural: "20 cent coins"@ },
            DenomModel { cents: 10, singular: "10 cent coin"@, plural: "10 cent coins"@ },
            DenomModel { cents: 5, singular: "5 cent coin"@, plural: "5 cent coins"@ },
            DenomModel { cents: 2, singular: "2 cent coin"@, plural: "2 cent coins"@ },
            DenomModel { cents: 1, singular: "1 cent coin"@, plural: "1 cent coins"@ },
        ],
    }
}

/// The United States dollar table: dollars, quarters, dimes, nickels, pennies.
pub fn usd() -> (c: Currency)
    ensures
        c@ == usd_model(),
        c.well_formed(),
{
    let mut denominations: Vec<Denomination> = Vec::new();
    denominations.push(denom(100, "dollar", "dollars"));
    denominations.push(denom(25, "quarter", "quarters"));
    denominations.push(denom(10, "dime", "dimes"));
    denominations.push(denom(5, "nickel", "nickels"));
    denominations.push(denom(1, "penny", "pennies"));
    let c = Currency {
        name: String::from_str("USD"),
        symbol: String::from_str("$"),
        denominations,
    };
    proof {
        assert(c@.denominations =~= usd_model().denominations);
        assert(c@ =~~= usd_model());
    }
    c
}

/// The euro coin table, from the two-euro coin down to the one-cent coin.
pub fn eur() -> (c: Currency)
    ensures
        c@ == eur_model(),
        c.well_formed(),
{
    let mut denominations: Vec<Denomination> = Vec::new();
    denominations.push(denom(200, "2 euro coin", "2 euro coins"));
    denominations.push(denom(100, "1 euro coin", "1 euro coins"));
    denominations.push(denom(50, "50 cent coin", "50 cent coins"));
    denominations.push(denom(20, "20 cent coin", "20 cent coins"));
    denominations.push(denom(10, "10 cent coin", "10 cent coins"));
    denominations.push(denom(5, "5 cent coin", "5 cent coins"));
    denominations.push(denom(2, "2 cent coin", "2 cent coins"));
    denominations.push(denom(1, "1 cent coin", "1 cent coins"));
    let c = Currency {
        name: String::from_str("EUR"),
        symbol: String::from_str("\u{20ac}"),
        denominations,
    };
    proof {
        assert(c@.denominations =~= eur_model().denominations);
        assert(c@ =~~= eur_model());
    }
    c
}

} // verus!
