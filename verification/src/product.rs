//! The product catalog: products with id, name, price and quantity, and the
//! list that keeps them under unique ids.
//!
//! Prices are integer cents; formatting and persistence happen outside the
//! library.

use crate::date::Date;
use crate::text::str_eq;
use vstd::prelude::*;

verus! {

/// A catalog entry.
#[derive(Debug, Clone, PartialEq, Eq, Hash)]
pub struct Product {
    pub id: u32,
    pub name: String,
    pub price: u64,
    pub quantity: usize,
}

/// One placed unit of a product, as a zone holds it: the owning product's
/// id, the unit's position, and an optional expiration date.
#[derive(Debug, Clone, PartialEq, Eq)]
pub struct ProductItem {
    pub id: u32,
    pub row: usize,
    pub column: usize,
    pub zone: usize,
    pub expiry_date: Option<Date>,
}

/// The product catalog. Entries are kept in insertion order; ids are unique.
#[derive(Debug, Clone)]
pub struct ProductList {
    pub products: Vec<Product>,
}

#[derive(Debug)]
pub enum ErrorKind {
    NotEnoughQuantity,
    ProductNotFound,
    IDExists,
    NameExists,
    InvalidInput,
}

impl ErrorKind {
    pub open spec fn message(self) -> Seq<char> {
        match self {
            ErrorKind::NotEnoughQuantity => "Not enough quantity"@,
            ErrorKind::ProductNotFound => "Product not found"@,
            ErrorKind::IDExists => "ID already exists"@,
            ErrorKind::NameExists => "Product with this name already exists"@,
            ErrorKind::InvalidInput => "Invalid input"@,
        }
    }

    pub fn as_str(&self) -> (r: &'static str)
        ensures
            r@ == self.message(),
    {
        match self {
            ErrorKind::NotEnoughQuantity => "Not enough quantity",
            ErrorKind::ProductNotFound => "Product not found",
            ErrorKind::IDExists => "ID already exists",
            ErrorKind::NameExists => "Product with this name already exists",
            ErrorKind::InvalidInput => "Invalid input",
        }
    }
}

impl Product {
    pub fn new(id: u32, name: String, price: u64, quantity: usize) -> (p: Product)
        ensures
            p == (Product { id, name, price, quantity }),
    {
        Product { id, name, price, quantity }
    }

    pub fn add_quantity(&mut self, quantity: usize)
        requires
            old(self).quantity + quantity <= usize::MAX,
        ensures
            *final(self) == (Product { quantity: (old(self).quantity + quantity) as usize, ..*old(self) }),
    {
        self.quantity = self.quantity + quantity;
    }

    /// Removes `quantity` units; fails without change when fewer are held.
    pub fn remove_quantity(&mut self, quantity: usize) -> (r: Result<(), ErrorKind>)
        ensures
            old(self).quantity >= quantity ==> r is Ok && *final(self) == (Product {
                quantity: (old(self).quantity - quantity) as usize,
                ..*old(self)
            }),
            old(self).quantity < quantity ==> (r matches Err(ErrorKind::NotEnoughQuantity))
                && *final(self) == *old(self),
    {
        if self.quantity >= quantity {
            self.quantity = self.quantity - quantity;
            Ok(())
        } else {
            Err(ErrorKind::NotEnoughQuantity)
        }
    }

    pub fn set_price(&mut self, price: u64)
        ensures
            *final(self) == (Product { price, ..*old(self) }),
    {
        self.price = price;
    }
}

impl ProductItem {
    pub fn new(product_id: u32, row: usize, column: usize, zone: usize, expiry_date: Option<
        Date,
    >) -> (it: ProductItem)
        ensures
            it == (ProductItem { id: product_id, row, column, zone, expiry_date }),
    {
        ProductItem { id: product_id, row, column, zone, expiry_date }
    }

    pub fn position(&self) -> (r: (usize, usize, usize))
        ensures
            r == (self.row, self.column, self.zone),
    {
        (self.row, self.column, self.zone)
    }

    pub fn expiry(&self) -> (r: Option<Date>)
        ensures
            r == self.expiry_date,
    {
        self.expiry_date
    }

    pub fn place(&mut self, row: usize, column: usize, zone: usize)
        ensures
            *final(self) == (ProductItem { row, column, zone, ..*old(self) }),
    {
        self.row = row;
        self.column = column;
        self.zone = zone;
    }

    pub fn set_expiration(&mut self, expiry_date: Option<Date>)
        ensures
            *final(self) == (ProductItem { expiry_date, ..*old(self) }),
    {
        self.expiry_date = expiry_date;
    }

    /// A copy of this unit relocated to another zone.
    pub fn copy_at_zone(&self, row: usize, column: usize, zone: usize) -> (it: ProductItem)
        ensures
            it == (ProductItem { row, column, zone, ..*self }),
    {
        ProductItem { id: self.id, row, column, zone, expiry_date: self.expiry_date }
    }
}

impl ProductList {
    /// The ids held, in order.
    pub open spec fn ids(self) -> Seq<u32> {
        self.products@.map_values(|p: Product| p.id)
    }

    /// Ids are unique.
    pub open spec fn wf(self) -> bool {
        forall|i: int, j: int|
            0 <= i < j < self.products@.len() ==> self.products@[i].id != self.products@[j].id
    }

    pub open spec fn has_id(self, id: u32) -> bool {
        exists|i: int| 0 <= i < self.products@.len() && self.products@[i].id == id
    }

    pub open spec fn has_name(self, name: Seq<char>) -> bool {
        exists|i: int| 0 <= i < self.products@.len() && self.products@[i].name@ == name
    }

    /// The first position holding `id`; the length when none does.
    pub open spec fn id_index(self, id: u32) -> int {
        first_with_id(self.products@, id)
    }

    pub fn new() -> (r: ProductList)
        ensures
            r.products@.len() == 0,
            r.wf(),
    {
        ProductList { products: Vec::new() }
    }

    /// Adds a product; refused when its id or name is already held.
    #[verifier::loop_isolation(false)]
    pub fn add(&mut self, product: Product) -> (r: Result<(), ErrorKind>)
        requires
            old(self).wf(),
        ensures
            final(self).wf(),
            old(self).has_id(product.id) ==> (r matches Err(ErrorKind::IDExists)) && *final(self)
                == *old(self),
            !old(self).has_id(product.id) && old(self).has_name(product.name@) ==> (r matches
            Err(ErrorKind::NameExists)) && *final(self) == *old(self),
            !old(self).has_id(product.id) && !old(self).has_name(product.name@) ==> r is Ok
                && final(self).products@ == old(self).products@.push(product),
    {
        let n = self.products.len();
        let mut i: usize = 0;
        while i < n
            invariant
                0 <= i <= n,
                *self == *old(self),
                forall|k: int| 0 <= k < i ==> self.products@[k].id != product.id,
            decreases n - i,
        {
            if self.products[i].id == product.id {
                return Err(ErrorKind::IDExists);
            }
            i = i + 1;
        }
        let mut j: usize = 0;
        while j < n
            invariant
                0 <= j <= n,
                *self == *old(self),
                forall|k: int| 0 <= k < j ==> self.products@[k].name@ != product.name@,
            decreases n - j,
        {
            if str_eq(self.products[j].name.as_str(), product.name.as_str()) {
                return Err(ErrorKind::NameExists);
            }
            j = j + 1;
        }
        self.products.push(product);
        Ok(())
    }

    /// Removes the product with this id; fails when none holds it.
    #[verifier::loop_isolation(false)]
    pub fn remove_by_id(&mut self, id: u32) -> (r: Result<(), ErrorKind>)
        requires
            old(self).wf(),
        ensures
            final(self).wf(),
            !old(self).has_id(id) ==> (r matches Err(ErrorKind::ProductNotFound)) && *final(self)
                == *old(self),
            old(self).has_id(id) ==> r is Ok && final(self).products@ == old(
                self,
            ).products@.remove(old(self).id_index(id)),
    {
        proof {
            lemma_first_with_id(self.products@, id);
        }
        let n = self.products.len();
        let mut i: usize = 0;
        while i < n
            invariant
                0 <= i <= n,
                *self == *old(self),
                forall|k: int| 0 <= k < i ==> self.products@[k].id != id,
            decreases n - i,
        {
            if self.products[i].id == id {
                self.products.remove(i);
                proof {
                    let s0 = old(self).products@;
                    assert forall|a: int, b: int|
                        0 <= a < b < self.products@.len() implies self.products@[a].id
                        != self.products@[b].id by {
                        assert(self.products@[a] == if a < i {
                            s0[a]
                        } else {
                            s0[a + 1]
                        });
                        assert(self.products@[b] == if b < i {
                            s0[b]
                        } else {
                            s0[b + 1]
                        });
                    }
                }
                return Ok(());
            }
            i = i + 1;
        }
        Err(ErrorKind::ProductNotFound)
    }

    /// Removes the product carrying this name; fails when none does.
    #[verifier::loop_isolation(false)]
    pub fn remove_by_name(&mut self, name: &str) -> (r: Result<(), ErrorKind>)
        requires
            old(self).wf(),
        ensures
            final(self).wf(),
            !old(self).has_name(name@) ==> (r matches Err(ErrorKind::ProductNotFound))
                && *final(self) == *old(self),
            old(self).has_name(name@) ==> r is Ok && final(self).products@.len() == old(
                self,
            ).products@.len() - 1,
    {
        let n = self.products.len();
        let mut i: usize = 0;
        while i < n
            invariant
                0 <= i <= n,
                *self == *old(self),
                forall|k: int| 0 <= k < i ==> self.products@[k].name@ != name@,
            decreases n - i,
        {
            if str_eq(self.products[i].name.as_str(), name) {
                let id = self.products[i].id;
                proof {
                    lemma_first_with_name(self.products@, name@);
                    assert(first_with_name(self.products@, name@) == i);
                    lemma_first_with_id(self.products@, id);
                    assert(self.products@[self.id_index(id)].id == self.products@[i as int].id);
                    assert(self.id_index(id) == i);
                }
                return match self.remove_by_id(id) {
                    Ok(()) => Ok(()),
                    Err(e) => Err(e),
                };
            }
            i = i + 1;
        }
        Err(ErrorKind::ProductNotFound)
    }

    /// The product with this id, when the list holds one.
    #[verifier::loop_isolation(false)]
    pub fn get(&self, id: u32) -> (r: Option<&Product>)
        ensures
            (r is Some) <==> self.has_id(id),
            r matches Some(p) ==> *p == self.products@[self.id_index(id)] && p.id == id,
    {
        proof {
            lemma_first_with_id(self.products@, id);
        }
        let n = self.products.len();
        let mut i: usize = 0;
        while i < n
            invariant
                0 <= i <= n,
                forall|k: int| 0 <= k < i ==> self.products@[k].id != id,
            decreases n - i,
        {
            if self.products[i].id == id {
                return Some(&self.products[i]);
            }
            i = i + 1;
        }
        None
    }

    /// Mutable access to the product with this id.
    #[verifier::loop_isolation(false)]
    pub fn get_mut(&mut self, id: u32) -> (r: Option<&mut Product>)
        ensures
            (r is Some) <==> old(self).has_id(id),
            r is None ==> *final(self) == *old(self),
            r matches Some(p) ==> *p == old(self).products@[old(self).id_index(id)] && p.id == id
                && final(self).products@ == old(self).products@.update(
                old(self).id_index(id),
                *final(p),
            ),
    {
        proof {
            lemma_first_with_id(self.products@, id);
        }
        let n = self.products.len();
        let mut i: usize = 0;
        while i < n
            invariant
                0 <= i <= n,
                *self == *old(self),
                forall|k: int| 0 <= k < i ==> self.products@[k].id != id,
            decreases n - i,
        {
            if self.products[i].id == id {
                return Some(&mut self.products[i]);
            }
            i = i + 1;
        }
        None
    }
}

/// The first position in `s` whose product carries `name`; `s.len()` when
/// none does.
pub open spec fn first_with_name(s: Seq<Product>, name: Seq<char>) -> int
    decreases s.len(),
{
    if s.len() == 0 {
        0
    } else if s[0].name@ == name {
        0
    } else {
        1 + first_with_name(s.drop_first(), name)
    }
}

pub proof fn lemma_first_with_name(s: Seq<Product>, name: Seq<char>)
    ensures
        0 <= first_with_name(s, name) <= s.len(),
        first_with_name(s, name) < s.len() ==> s[first_with_name(s, name)].name@ == name,
        forall|k: int| 0 <= k < first_with_name(s, name) ==> s[k].name@ != name,
    decreases s.len(),
{
    if s.len() > 0 && s[0].name@ != name {
        lemma_first_with_name(s.drop_first(), name);
        assert forall|k: int| 0 <= k < first_with_name(s, name) implies s[k].name@ != name by {
            if k > 0 {
                assert(s.drop_first()[k - 1].name@ != name);
            }
        }
    }
}

/// The first position in `s` whose product carries `id`; `s.len()` when none
/// does.
pub open spec fn first_with_id(s: Seq<Product>, id: u32) -> int
    decreases s.len(),
{
    if s.len() == 0 {
        0
    } else if s[0].id == id {
        0
    } else {
        1 + first_with_id(s.drop_first(), id)
    }
}

pub proof fn lemma_first_with_id(s: Seq<Product>, id: u32)
    ensures
        0 <= first_with_id(s, id) <= s.len(),
        first_with_id(s, id) < s.len() ==> s[first_with_id(s, id)].id == id,
        forall|k: int| 0 <= k < first_with_id(s, id) ==> s[k].id != id,
        first_with_id(s, id) == s.len() ==> forall|k: int| 0 <= k < s.len() ==> s[k].id != id,
    decreases s.len(),
{
    if s.len() > 0 && s[0].id != id {
        lemma_first_with_id(s.drop_first(), id);
        assert forall|k: int| 0 <= k < first_with_id(s, id) implies s[k].id != id by {
            if k > 0 {
                assert(s.drop_first()[k - 1].id != id);
            }
        }
        if first_with_id(s, id) == s.len() {
            assert forall|k: int| 0 <= k < s.len() implies s[k].id != id by {
                if k > 0 {
                    assert(s.drop_first()[k - 1].id != id);
                }
            }
        }
    }
}

impl Default for ProductList {
    fn default() -> (r: Self)
        ensures
            r.products@.len() == 0,
            r.wf(),
    {
        ProductList::new()
    }
}

} // verus!
