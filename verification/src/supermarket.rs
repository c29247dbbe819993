//! A supermarket's shelving: rows (`fila`) of shelves (`prateleira`) of
//! zones (`zona`), each zone empty or holding one product, driven by text
//! commands.
//!
//! Prices are floating-point numbers, which the verified library does not
//! handle: a product carries the IEEE-754 bit pattern of its price, and a
//! command that names a price hands its price word back to the caller to be
//! read (`ParsedCommand::NeedsPrice`).
use vstd::prelude::*;

use crate::text::{spells, chars_of, split_tokens, string_from_chars, tokens, spec_parse_unsigned, parse_unsigned_chars};

verus! {

/// A product on the shelves.
#[derive(Debug)]
pub struct Product {
    pub id: u32,
    pub name: String,
    pub expiration: String,
    /// Bit pattern of the price, an `f64`.
    pub price_bits: u64,
    pub quantity: usize,
}

/// A request to the supermarket.
#[derive(Debug)]
pub enum Command {
    /// Put a product at (row, shelf, zone).
    AddProduct(usize, usize, usize, Product),
    /// Add to the quantity of the product with this id.
    Resupply(u32, usize),
    /// Take a quantity of the product with this id away.
    RemoveProduct(u32, usize),
    /// Give the product with this id a new price (bit pattern of an `f64`).
    ChangePrice(u32, u64),
    /// Move the product with this id to (row, shelf, zone).
    MoveTo(u32, usize, usize, usize),
    /// List the products.
    Show,
}

/// The shelving.
pub struct Supermarket {
    pub products: Vec<Vec<Vec<Option<Product>>>>,
}

/// The shelving as nested sequences: row, shelf, zone.
pub type Grid = Seq<Seq<Seq<Option<Product>>>>;

/// The product with `id` sits at (i, j, k).
pub open spec fn holds(g: Grid, id: u32, i: int, j: int, k: int) -> bool {
    &&& 0 <= i < g.len()
    &&& 0 <= j < g[i].len()
    &&& 0 <= k < g[i][j].len()
    &&& g[i][j][k] is Some
    &&& g[i][j][k]->0.id == id
}

/// (a, b, c) comes before (i, j, k) in row, then shelf, then zone order.
pub open spec fn lex_before(a: int, b: int, c: int, i: int, j: int, k: int) -> bool {
    a < i || (a == i && (b < j || (b == j && c < k)))
}

/// (i, j, k) is the first place, in row, shelf, zone order, that holds `id`.
pub open spec fn located(g: Grid, id: u32, i: int, j: int, k: int) -> bool {
    &&& holds(g, id, i, j, k)
    &&& forall|a: int, b: int, c: int| #[trigger] holds(g, id, a, b, c) ==> !lex_before(a, b, c, i, j, k)
}

/// Where a search for `id` finds it: the first place holding it.
pub open spec fn location(g: Grid, id: u32) -> Option<(int, int, int)> {
    if exists|i: int, j: int, k: int| located(g, id, i, j, k) {
        Some(choose|i: int, j: int, k: int| located(g, id, i, j, k))
    } else {
        None
    }
}

/// `s` cut or padded with empty zones to length `n`, as `Vec::resize` does.
pub open spec fn resized(s: Seq<Option<Product>>, n: int) -> Seq<Option<Product>> {
    if n <= s.len() {
        s.subrange(0, n)
    } else {
        s + Seq::new((n - s.len()) as nat, |x: int| None::<Product>)
    }
}

/// `s` padded with empty entries up to length `n`, if it is shorter.
pub open spec fn padded<A>(s: Seq<Seq<A>>, n: int) -> Seq<Seq<A>> {
    if n <= s.len() {
        s
    } else {
        s + Seq::new((n - s.len()) as nat, |x: int| Seq::<A>::empty())
    }
}

/// The grid after making room at (i, j, k): rows and shelves are added up to
/// `i` and `j`, and the shelf is resized to exactly `k + 1` zones.
pub open spec fn made_room(g: Grid, i: int, j: int, k: int) -> Grid {
    let g1 = padded(g, i + 1);
    let g2 = g1.update(i, padded(g1[i], j + 1));
    g2.update(i, g2[i].update(j, resized(g2[i][j], k + 1)))
}

pub open spec fn set_at(g: Grid, i: int, j: int, k: int, v: Option<Product>) -> Grid {
    g.update(i, g[i].update(j, g[i][j].update(k, v)))
}

pub open spec fn removed_at(g: Grid, i: int, j: int, k: int) -> Grid {
    g.update(i, g[i].update(j, g[i][j].remove(k)))
}

pub open spec fn with_quantity(p: Product, q: int) -> Product {
    Product { quantity: q as usize, ..p }
}

pub open spec fn with_price(p: Product, bits: u64) -> Product {
    Product { price_bits: bits, ..p }
}

/// The inputs on which a command is defined: no quantity or zone number
/// overflows, and a move's target lies inside the shelving.
pub open spec fn command_defined(g: Grid, cmd: Command) -> bool {
    match cmd {
        Command::AddProduct(i, j, k, p) => location(g, p.id) is None ==> k < usize::MAX,
        Command::Resupply(id, q) => match location(g, id) {
            Some(c) => g[c.0][c.1][c.2]->0.quantity + q <= usize::MAX,
            None => true,
        },
        Command::MoveTo(id, i, j, k) => location(g, id) is Some ==> {
            &&& i < g.len()
            &&& j < g[i as int].len()
            &&& k < g[i as int][j as int].len()
            &&& k < usize::MAX
        },
        _ => true,
    }
}

/// The grid a command leaves and the answer it gives.
pub open spec fn command_outcome(g: Grid, cmd: Command) -> (Grid, Result<&'static str, &'static str>) {
    match cmd {
        Command::AddProduct(i, j, k, p) => if location(g, p.id) is Some {
            (g, Err("Product already exists"))
        } else {
            (set_at(made_room(g, i as int, j as int, k as int), i as int, j as int, k as int, Some(p)), Ok("Added product"))
        },
        Command::Resupply(id, q) => match location(g, id) {
            None => (g, Err("Product not found")),
            Some(c) => {
                let p = g[c.0][c.1][c.2]->0;
                (set_at(g, c.0, c.1, c.2, Some(with_quantity(p, p.quantity + q))), Ok("Resupplied"))
            },
        },
        Command::RemoveProduct(id, q) => match location(g, id) {
            None => (g, Err("Product not found")),
            Some(c) => {
                let p = g[c.0][c.1][c.2]->0;
                if p.quantity < q {
                    (g, Err("Cannot remove more than in "))
                } else if p.quantity == q {
                    (removed_at(g, c.0, c.1, c.2), Ok("Product Removed"))
                } else {
                    (set_at(g, c.0, c.1, c.2, Some(with_quantity(p, p.quantity - q))), Ok("Product Removed"))
                }
            },
        },
        Command::ChangePrice(id, bits) => match location(g, id) {
            None => (g, Err("Product not found")),
            Some(c) => {
                let p = g[c.0][c.1][c.2]->0;
                (set_at(g, c.0, c.1, c.2, Some(with_price(p, bits))), Ok("New price set"))
            },
        },
        Command::MoveTo(id, i, j, k) => match location(g, id) {
            None => (g, Err("Product not found")),
            Some(c) => if g[i as int][j as int][k as int] is Some {
                (g, Err("Product already occupied"))
            } else {
                let moved = g[c.0][c.1][c.2];
                let g1 = removed_at(g, c.0, c.1, c.2);
                (set_at(made_room(g1, i as int, j as int, k as int), i as int, j as int, k as int, moved), Ok("Product moved"))
            },
        },
        Command::Show => (g, Ok("Showed")),
    }
}

/// Two places both first for `id` are the same place.
proof fn lemma_located_unique(g: Grid, id: u32, i: int, j: int, k: int, a: int, b: int, c: int)
    requires
        located(g, id, i, j, k),
        located(g, id, a, b, c),
    ensures
        i == a && j == b && k == c,
{
    assert(holds(g, id, a, b, c));
    assert(holds(g, id, i, j, k));
}

/// A first place for `id` is where the search finds it.
proof fn lemma_location_of(g: Grid, id: u32, i: int, j: int, k: int)
    requires
        located(g, id, i, j, k),
    ensures
        location(g, id) == Some((i, j, k)),
{
    let w = choose|a: int, b: int, c: int| located(g, id, a, b, c);
    lemma_located_unique(g, id, i, j, k, w.0, w.1, w.2);
}

/// After writing zone (i, j, k), the grid is the old one with that zone set.
proof fn lemma_set_at(g: Grid, h: Grid, i: int, j: int, k: int)
    requires
        0 <= i < g.len(),
        0 <= j < g[i].len(),
        0 <= k < g[i][j].len(),
        h.len() == g.len(),
        h[i].len() == g[i].len(),
        forall|q: int| 0 <= q < g.len() && q != i ==> h[q] == g[q],
        forall|q: int| 0 <= q < g[i].len() && q != j ==> h[i][q] == g[i][q],
        h[i][j].len() == g[i][j].len(),
        forall|q: int| 0 <= q < g[i][j].len() && q != k ==> h[i][j][q] == g[i][j][q],
    ensures
        h == set_at(g, i, j, k, h[i][j][k]),
{
    assert(h[i][j] =~= g[i][j].update(k, h[i][j][k]));
    assert(h[i] =~= g[i].update(j, h[i][j]));
    assert(h =~= set_at(g, i, j, k, h[i][j][k]));
}

/// Making room at (i, j, k) leaves zone (i, j, k) in place.
proof fn lemma_made_room_bounds(g: Grid, i: int, j: int, k: int)
    requires
        0 <= i,
        0 <= j,
        0 <= k,
    ensures
        i < made_room(g, i, j, k).len(),
        j < made_room(g, i, j, k)[i].len(),
        made_room(g, i, j, k)[i][j].len() == k + 1,
{
    let g1 = padded(g, i + 1);
    assert(g1.len() >= i + 1);
    let r = padded(g1[i], j + 1);
    assert(r.len() >= j + 1);
}

/// Wherever a product with `id` sits, a first place holding it exists.
proof fn lemma_first_place_exists(g: Grid, id: u32, i: int, j: int, k: int)
    requires
        holds(g, id, i, j, k),
    ensures
        location(g, id) is Some,
    decreases i, j, k,
{
    if located(g, id, i, j, k) {
        lemma_location_of(g, id, i, j, k);
    } else {
        let (a, b, c) = choose|a: int, b: int, c: int| #[trigger] holds(g, id, a, b, c) && lex_before(a, b, c, i, j, k);
        lemma_first_place_exists(g, id, a, b, c);
    }
}

/// A zone that holds a product after making room held it before.
proof fn lemma_made_room_keeps(g: Grid, i: int, j: int, k: int, a: int, b: int, c: int)
    requires
        0 <= i,
        0 <= j,
        0 <= k,
        0 <= a < made_room(g, i, j, k).len(),
        0 <= b < made_room(g, i, j, k)[a].len(),
        0 <= c < made_room(g, i, j, k)[a][b].len(),
        made_room(g, i, j, k)[a][b][c] is Some,
    ensures
        0 <= a < g.len(),
        0 <= b < g[a].len(),
        0 <= c < g[a][b].len(),
        made_room(g, i, j, k)[a][b][c] == g[a][b][c],
{
    let g1 = padded(g, i + 1);
    let g2 = g1.update(i, padded(g1[i], j + 1));
    let m = made_room(g, i, j, k);
    if a < g.len() {
        assert(g1[a] == g[a]);
    } else {
        assert(g1[a] == Seq::<Seq<Option<Product>>>::empty());
    }
    if a == i {
        let r1 = padded(g1[i], j + 1);
        if b < g1[i].len() {
            assert(r1[b] == g1[i][b]);
        } else {
            assert(r1[b] == Seq::<Option<Product>>::empty());
        }
        if b == j {
            let z = g2[i][j];
            assert(m[i][j] == resized(z, k + 1));
            if c >= z.len() {
                assert(m[i][j][c] is None);
            }
        }
    }
}

/// After a product is added, searching for its id finds it where it was
/// put.
pub proof fn lemma_added_product_found(g: Grid, f: usize, p: usize, z: usize, product: Product)
    requires
        command_defined(g, Command::AddProduct(f, p, z, product)),
        command_outcome(g, Command::AddProduct(f, p, z, product)).1 is Ok,
    ensures
        location(command_outcome(g, Command::AddProduct(f, p, z, product)).0, product.id) == Some(
            (f as int, p as int, z as int),
        ),
{
    let id = product.id;
    let m = made_room(g, f as int, p as int, z as int);
    let h = set_at(m, f as int, p as int, z as int, Some(product));
    lemma_made_room_bounds(g, f as int, p as int, z as int);
    assert(location(g, id) is None);
    assert forall|a: int, b: int, c: int| #[trigger] holds(h, id, a, b, c) implies a == f && b == p && c == z by {
        if !(a == f && b == p && c == z) {
            assert(h[a][b][c] == m[a][b][c]);
            lemma_made_room_keeps(g, f as int, p as int, z as int, a, b, c);
            assert(holds(g, id, a, b, c));
            lemma_first_place_exists(g, id, a, b, c);
        }
    }
    assert(holds(h, id, f as int, p as int, z as int));
    assert(located(h, id, f as int, p as int, z as int));
    lemma_location_of(h, id, f as int, p as int, z as int);
}

/// Grids that hold every id at the same places locate every id alike.
proof fn lemma_location_same_places(g: Grid, h: Grid, id: u32)
    requires
        forall|a: int, b: int, c: int| holds(g, id, a, b, c) <==> holds(h, id, a, b, c),
    ensures
        location(g, id) == location(h, id),
{
    if exists|i: int, j: int, k: int| located(g, id, i, j, k) {
        let (i, j, k) = choose|i: int, j: int, k: int| located(g, id, i, j, k);
        assert(located(h, id, i, j, k));
        lemma_location_of(g, id, i, j, k);
        lemma_location_of(h, id, i, j, k);
    } else if exists|i: int, j: int, k: int| located(h, id, i, j, k) {
        let (i, j, k) = choose|i: int, j: int, k: int| located(h, id, i, j, k);
        assert(located(g, id, i, j, k));
    }
}

/// Taking away what was just resupplied gives back the shelving, for a
/// product whose quantity was not zero.
pub proof fn lemma_remove_undoes_resupply(g: Grid, id: u32, q: usize)
    requires
        location(g, id) matches Some(c) && {
            let p = g[c.0][c.1][c.2]->0;
            0 < p.quantity && p.quantity + q <= usize::MAX
        },
    ensures
        command_outcome(g, Command::Resupply(id, q)).1 == Ok::<&'static str, &'static str>("Resupplied"),
        command_defined(command_outcome(g, Command::Resupply(id, q)).0, Command::RemoveProduct(id, q)),
        command_outcome(command_outcome(g, Command::Resupply(id, q)).0, Command::RemoveProduct(id, q)) == (
            g,
            Ok::<&'static str, &'static str>("Product Removed"),
        ),
{
    let c = location(g, id)->0;
    let w = choose|i: int, j: int, k: int| located(g, id, i, j, k);
    assert(located(g, id, w.0, w.1, w.2));
    let p = g[c.0][c.1][c.2]->0;
    let g1 = set_at(g, c.0, c.1, c.2, Some(with_quantity(p, p.quantity + q)));
    assert forall|a: int, b: int, d: int| holds(g, id, a, b, d) <==> holds(g1, id, a, b, d) by {
        if a == c.0 && b == c.1 && d == c.2 {
        } else if holds(g, id, a, b, d) || holds(g1, id, a, b, d) {
            assert(g1[a][b][d] == g[a][b][d]);
        }
    }
    lemma_location_same_places(g, g1, id);
    assert(g1[c.0][c.1][c.2]->0.quantity == p.quantity + q);
    let p1 = g1[c.0][c.1][c.2]->0;
    assert(with_quantity(p1, p1.quantity - q) == p);
    assert(set_at(g1, c.0, c.1, c.2, Some(p)) =~= g) by {
        assert(set_at(g1, c.0, c.1, c.2, Some(p))[c.0][c.1] =~= g[c.0][c.1]);
        assert(set_at(g1, c.0, c.1, c.2, Some(p))[c.0] =~= g[c.0]);
    }
}

impl Supermarket {
    pub open spec fn grid(&self) -> Grid {
        self.products@.map_values(
            |r: Vec<Vec<Option<Product>>>| r@.map_values(|s: Vec<Option<Product>>| s@),
        )
    }

    /// One row holding one empty shelf.
    pub fn new() -> (s: Self)
        ensures
            s.grid() == seq![seq![Seq::<Option<Product>>::empty()]],
    {
        let mut row: Vec<Vec<Option<Product>>> = Vec::new();
        row.push(Vec::new());
        let mut products: Vec<Vec<Vec<Option<Product>>>> = Vec::new();
        products.push(row);
        let s = Supermarket { products };
        assert(s.grid()[0] =~= seq![Seq::<Option<Product>>::empty()]);
        assert(s.grid() =~= seq![seq![Seq::<Option<Product>>::empty()]]);
        s
    }

    /// The first place, by row, then shelf, then zone, that holds the
    /// product with `id`.
    pub fn find_coords(&self, id: u32) -> (r: Result<(usize, usize, usize), &'static str>)
        ensures
            match r {
                Ok(c) => location(self.grid(), id) == Some((c.0 as int, c.1 as int, c.2 as int)),
                Err(e) => location(self.grid(), id) is None && e == "Product not found",
            },
    {
        let ghost g = self.grid();
        let mut i: usize = 0;
        while i < self.products.len()
            invariant
                g == self.grid(),
                i <= g.len(),
                forall|a: int, b: int, c: int| #[trigger] holds(g, id, a, b, c) ==> a >= i,
            decreases g.len() - i,
        {
            let row = &self.products[i];
            assert(row@.map_values(|s: Vec<Option<Product>>| s@) == g[i as int]);
            let mut j: usize = 0;
            while j < row.len()
                invariant
                    g == self.grid(),
                    i < g.len(),
                    *row == self.products@[i as int],
                    j <= row@.len(),
                    row@.len() == g[i as int].len(),
                    forall|a: int, b: int, c: int| #[trigger] holds(g, id, a, b, c) ==> a > i || (a == i && b >= j),
                decreases row@.len() - j,
            {
                let shelf = &row[j];
                assert(shelf@ == g[i as int][j as int]);
                let mut k: usize = 0;
                while k < shelf.len()
                    invariant
                        g == self.grid(),
                        i < g.len(),
                        j < g[i as int].len(),
                        shelf@ == g[i as int][j as int],
                        k <= shelf@.len(),
                        forall|a: int, b: int, c: int| #[trigger] holds(g, id, a, b, c) ==> a > i || (a == i && (b > j || (b == j && c >= k))),
                    decreases shelf@.len() - k,
                {
                    match &shelf[k] {
                        Some(p) => {
                            if p.id == id {
                                proof {
                                    assert(holds(g, id, i as int, j as int, k as int));
                                    assert(located(g, id, i as int, j as int, k as int));
                                    lemma_location_of(g, id, i as int, j as int, k as int);
                                }
                                return Ok((i, j, k));
                            }
                        },
                        None => {},
                    }
                    k = k + 1;
                }
                j = j + 1;
            }
            i = i + 1;
        }
        proof {
            if exists|a: int, b: int, c: int| located(g, id, a, b, c) {
                let w = choose|a: int, b: int, c: int| located(g, id, a, b, c);
                assert(holds(g, id, w.0, w.1, w.2));
            }
        }
        Err("Product not found")
    }

    /// Whether `apply` runs `command` to its end (`command_defined`).
    pub fn command_completes(&self, command: &Command) -> (b: bool)
        ensures
            b == command_defined(self.grid(), *command),
    {
        let ghost g = self.grid();
        match command {
            Command::AddProduct(_, _, k, p) => match self.find_coords(p.id) {
                Ok(_) => true,
                Err(_) => *k < usize::MAX,
            },
            Command::Resupply(id, q) => match self.find_coords(*id) {
                Err(_) => true,
                Ok((i, j, k)) => {
                    proof {
                        assert(located(g, *id, i as int, j as int, k as int));
                    }
                    match &self.products[i][j][k] {
                        Some(p) => p.quantity <= usize::MAX - *q,
                        None => true,
                    }
                },
            },
            Command::MoveTo(id, i, j, k) => match self.find_coords(*id) {
                Err(_) => true,
                Ok(_) => {
                    if *i >= self.products.len() {
                        return false;
                    }
                    assert(self.products@[*i as int]@.len() == g[*i as int].len());
                    if *j >= self.products[*i].len() {
                        return false;
                    }
                    assert(self.products@[*i as int]@[*j as int]@ == g[*i as int][*j as int]);
                    *k < self.products[*i][*j].len() && *k < usize::MAX
                },
            },
            _ => true,
        }
    }

    /// Carries out a command, as `command_outcome` describes.
    pub fn apply(&mut self, command: Command) -> (r: Result<&'static str, &'static str>)
        requires
            command_defined(old(self).grid(), command),
        ensures
            final(self).grid() == command_outcome(old(self).grid(), command).0,
            r == command_outcome(old(self).grid(), command).1,
    {
        let ghost g = old(self).grid();
        match command {
            Command::AddProduct(f, p, z, product) => {
                match self.find_coords(product.id) {
                    Ok(_) => Err("Product already exists"),
                    Err(_) => {
                        self.make_position((f, p, z));
                        let ghost g1 = self.grid();
                        proof {
                            lemma_made_room_bounds(g, f as int, p as int, z as int);
                        }
                        self.products[f][p][z] = Some(product);
                        proof {
                            lemma_set_at(g1, self.grid(), f as int, p as int, z as int);
                        }
                        Ok("Added product")
                    },
                }
            },
            Command::Resupply(id, q) => {
                match self.find_coords(id) {
                    Err(e) => Err(e),
                    Ok((i, j, k)) => {
                        proof {
                            assert(located(g, id, i as int, j as int, k as int));
                        }
                        let mut slot: Option<Product> = None;
                        std::mem::swap(&mut slot, &mut self.products[i][j][k]);
                        match slot {
                            Some(mut prod) => {
                                prod.quantity = prod.quantity + q;
                                self.products[i][j][k] = Some(prod);
                                proof {
                                    lemma_set_at(g, self.grid(), i as int, j as int, k as int);
                                }
                                Ok("Resupplied")
                            },
                            None => Err("Product not found"),
                        }
                    },
                }
            },
            Command::RemoveProduct(id, q) => {
                match self.find_coords(id) {
                    Err(e) => Err(e),
                    Ok((i, j, k)) => {
                        proof {
                            assert(located(g, id, i as int, j as int, k as int));
                        }
                        let have = match &self.products[i][j][k] {
                            Some(prod) => prod.quantity,
                            None => 0,
                        };
                        if have < q {
                            return Err("Cannot remove more than in ");
                        }
                        if have - q == 0 {
                            self.products[i][j].remove(k);
                            proof {
                                assert(self.grid()[i as int][j as int] =~= g[i as int][j as int].remove(k as int));
                                assert(self.grid()[i as int] =~= g[i as int].update(j as int, g[i as int][j as int].remove(k as int)));
                                assert(self.grid() =~= removed_at(g, i as int, j as int, k as int));
                            }
                        } else {
                            let mut slot: Option<Product> = None;
                            std::mem::swap(&mut slot, &mut self.products[i][j][k]);
                            if let Some(mut prod) = slot {
                                prod.quantity = prod.quantity - q;
                                self.products[i][j][k] = Some(prod);
                                proof {
                                    lemma_set_at(g, self.grid(), i as int, j as int, k as int);
                                }
                            }
                        }
                        Ok("Product Removed")
                    },
                }
            },
            Command::ChangePrice(id, bits) => {
                match self.find_coords(id) {
                    Err(e) => Err(e),
                    Ok((i, j, k)) => {
                        proof {
                            assert(located(g, id, i as int, j as int, k as int));
                        }
                        let mut slot: Option<Product> = None;
                        std::mem::swap(&mut slot, &mut self.products[i][j][k]);
                        if let Some(mut prod) = slot {
                            prod.price_bits = bits;
                            self.products[i][j][k] = Some(prod);
                            proof {
                                lemma_set_at(g, self.grid(), i as int, j as int, k as int);
                            }
                        }
                        Ok("New price set")
                    },
                }
            },
            Command::MoveTo(id, f, p, z) => {
                match self.find_coords(id) {
                    Err(e) => Err(e),
                    Ok((i, j, k)) => {
                        proof {
                            assert(located(g, id, i as int, j as int, k as int));
                        }
                        if self.products[f][p][z].is_some() {
                            return Err("Product already occupied");
                        }
                        let moved = self.products[i][j].remove(k);
                        proof {
                            assert(self.grid()[i as int][j as int] =~= g[i as int][j as int].remove(k as int));
                            assert(self.grid()[i as int] =~= g[i as int].update(j as int, g[i as int][j as int].remove(k as int)));
                            assert(self.grid() =~= removed_at(g, i as int, j as int, k as int));
                        }
                        let ghost g0 = self.grid();
                        self.make_position((f, p, z));
                        let ghost g1 = self.grid();
                        proof {
                            lemma_made_room_bounds(g0, f as int, p as int, z as int);
                        }
                        self.products[f][p][z] = moved;
                        proof {
                            lemma_set_at(g1, self.grid(), f as int, p as int, z as int);
                        }
                        Ok("Product moved")
                    },
                }
            },
            Command::Show => Ok("Showed"),
        }
    }

    /// Adds rows and shelves up to (i, j) where missing, and resizes shelf
    /// (i, j) to exactly `k + 1` zones, dropping zones beyond it.
    pub fn make_position(&mut self, pos: (usize, usize, usize))
        requires
            pos.2 < usize::MAX,
        ensures
            final(self).grid() == made_room(old(self).grid(), pos.0 as int, pos.1 as int, pos.2 as int),
    {
        let (i, j, k) = pos;
        let ghost g = old(self).grid();
        let ghost p0 = old(self).products@;
        while self.products.len() <= i
            invariant
                g == old(self).grid(),
                p0 == old(self).products@,
                p0.len() <= self.products@.len() <= i + 1 || self.products@ == p0,
                forall|q: int| 0 <= q < p0.len() ==> self.products@[q] == p0[q],
                forall|q: int| p0.len() <= q < self.products@.len() ==> self.products@[q]@.len() == 0,
            decreases i + 1 - self.products@.len(),
        {
            self.products.push(Vec::new());
        }
        let ghost g1 = padded(g, i + 1);
        proof {
            assert forall|q: int| 0 <= q < self.grid().len() implies self.grid()[q] == g1[q] by {
                if q >= g.len() {
                    assert(self.grid()[q] =~= Seq::<Seq<Option<Product>>>::empty());
                }
            }
            assert(self.grid() =~= g1);
        }
        let ghost p1 = self.products@;
        let ghost r1 = p1[i as int]@;
        while self.products[i].len() <= j
            invariant
                i < self.products@.len() == p1.len(),
                forall|q: int| 0 <= q < p1.len() && q != i ==> self.products@[q] == p1[q],
                r1 == p1[i as int]@,
                r1.len() <= self.products@[i as int]@.len() <= j + 1 || self.products@[i as int]@ == r1,
                forall|q: int| 0 <= q < r1.len() ==> self.products@[i as int]@[q] == r1[q],
                forall|q: int| r1.len() <= q < self.products@[i as int]@.len() ==> self.products@[i as int]@[q]@.len() == 0,
            decreases j + 1 - self.products@[i as int]@.len(),
        {
            self.products[i].push(Vec::new());
        }
        let ghost row1 = padded(g1[i as int], j + 1);
        proof {
            assert forall|q: int| 0 <= q < self.grid()[i as int].len() implies self.grid()[i as int][q] == row1[q] by {
                if q >= r1.len() {
                    assert(self.grid()[i as int][q] =~= Seq::<Option<Product>>::empty());
                }
            }
            assert(self.grid()[i as int] =~= row1);
            assert(self.grid() =~= g1.update(i as int, row1));
        }
        let ghost g2 = self.grid();
        let ghost p2 = self.products@;
        let ghost z2 = p2[i as int]@[j as int]@;
        let n = k + 1;
        if self.products[i][j].len() >= n {
            self.products[i][j].truncate(n);
        } else {
            while self.products[i][j].len() < n
                invariant
                    i < self.products@.len() == p2.len(),
                    j < self.products@[i as int]@.len() == p2[i as int]@.len(),
                    forall|q: int| 0 <= q < p2.len() && q != i ==> self.products@[q] == p2[q],
                    forall|q: int| 0 <= q < p2[i as int]@.len() && q != j ==> self.products@[i as int]@[q] == p2[i as int]@[q],
                    z2 == p2[i as int]@[j as int]@,
                    z2.len() <= self.products@[i as int]@[j as int]@.len() <= n,
                    self.products@[i as int]@[j as int]@ == resized(z2, self.products@[i as int]@[j as int]@.len() as int),
                decreases n - self.products@[i as int]@[j as int]@.len(),
            {
                self.products[i][j].push(None);
                proof {
                    let m = self.products@[i as int]@[j as int]@.len() as int;
                    assert(self.products@[i as int]@[j as int]@ =~= resized(z2, m));
                }
            }
        }
        proof {
            assert(self.grid()[i as int][j as int] =~= resized(g2[i as int][j as int], n as int));
            assert(self.grid()[i as int] =~= g2[i as int].update(j as int, resized(g2[i as int][j as int], n as int)));
            assert(self.grid() =~= made_room(g, i as int, j as int, k as int));
        }
    }
}


// ---------------------------------------------------------------------
// Reading commands
// ---------------------------------------------------------------------

/// A command that waits for its price, read by the caller from the
/// price word.
#[derive(Debug)]
pub enum PriceWaiting {
    /// Row, shelf, zone, id, name, expiration date, and the quantity word.
    AddProduct(usize, usize, usize, u32, String, String, String),
    /// The product id.
    ChangePrice(u32),
}

/// A command line, read as far as the library reads it.
#[derive(Debug)]
pub enum ParsedCommand {
    Ready(Command),
    /// The command and its price word.
    NeedsPrice(PriceWaiting, String),
}

/// What reading a command line gives, over its words.
pub enum ReadOutcome {
    Failed(&'static str),
    Add(int, int, int, int, Seq<char>, Seq<char>, Seq<char>, Seq<char>),
    Resupply(int, int),
    Remove(int, int),
    Price(int, Seq<char>),
    Move(int, int, int, int),
    Show,
}

/// Word `n` of the command, or `dflt` where the command has no such word.
pub open spec fn word(t: Seq<Seq<char>>, n: int, dflt: Seq<char>) -> Seq<char> {
    if n < t.len() {
        t[n]
    } else {
        dflt
    }
}

pub open spec fn index_word(t: Seq<Seq<char>>, n: int, dflt: Seq<char>) -> Option<int> {
    spec_parse_unsigned(word(t, n, dflt), usize::MAX as int)
}

pub open spec fn id_word(t: Seq<Seq<char>>, n: int) -> Option<int> {
    spec_parse_unsigned(word(t, n, "Expecting Product ID"@), u32::MAX as int)
}

pub open spec fn quantity_word(t: Seq<Seq<char>>, n: int) -> Option<int> {
    index_word(t, n, "Expecting Product Quantity"@)
}

/// Reading an id and a quantity (`resupply`, `removeProduct`).
pub open spec fn read_id_quantity(t: Seq<Seq<char>>) -> Result<(int, int), &'static str> {
    match id_word(t, 1) {
        None => Err("Invalid ID"),
        Some(id) => match quantity_word(t, 2) {
            None => Err("Invalid quantity"),
            Some(q) => Ok((id, q)),
        },
    }
}

/// Reading row, shelf and zone from words `n`, `n + 1` and `n + 2`.
pub open spec fn read_place(t: Seq<Seq<char>>, n: int) -> Result<(int, int, int), &'static str> {
    match index_word(t, n, "Expecting Fila"@) {
        None => Err("Failed to parse 'Fila'"),
        Some(f) => match index_word(t, n + 1, "Expecting Prateleira"@) {
            None => Err("Failed to parse 'Prateleira'"),
            Some(p) => match index_word(t, n + 2, "Expecting Zona"@) {
                None => Err("Failed to parse 'Zona'"),
                Some(z) => Ok((f, p, z)),
            },
        },
    }
}

/// What a command line with words `t` reads as.
pub open spec fn read_outcome(t: Seq<Seq<char>>) -> ReadOutcome {
    let op = t[0];
    if op == "addProduct"@ {
        match read_place(t, 1) {
            Err(e) => ReadOutcome::Failed(e),
            Ok(c) => match id_word(t, 4) {
                None => ReadOutcome::Failed("Invalid ID"),
                Some(id) => ReadOutcome::Add(
                    c.0,
                    c.1,
                    c.2,
                    id,
                    word(t, 5, "Expecting Product Name"@),
                    word(t, 6, "Expecting Product Expiration Date"@),
                    word(t, 7, "Expecting Product Price"@),
                    word(t, 8, "Expecting Product Quantity"@),
                ),
            },
        }
    } else if op == "resupply"@ {
        match read_id_quantity(t) {
            Err(e) => ReadOutcome::Failed(e),
            Ok(v) => ReadOutcome::Resupply(v.0, v.1),
        }
    } else if op == "removeProduct"@ {
        match read_id_quantity(t) {
            Err(e) => ReadOutcome::Failed(e),
            Ok(v) => ReadOutcome::Remove(v.0, v.1),
        }
    } else if op == "changePrice"@ {
        match id_word(t, 1) {
            None => ReadOutcome::Failed("Invalid ID"),
            Some(id) => ReadOutcome::Price(id, word(t, 2, "Expecting Product Price"@)),
        }
    } else if op == "moveTo"@ {
        match id_word(t, 1) {
            None => ReadOutcome::Failed("Invalid ID"),
            Some(id) => match read_place(t, 2) {
                Err(e) => ReadOutcome::Failed(e),
                Ok(c) => ReadOutcome::Move(id, c.0, c.1, c.2),
            },
        }
    } else if op == "show"@ {
        ReadOutcome::Show
    } else {
        ReadOutcome::Failed("Command Not valid")
    }
}

/// `r` is what `o` describes.
pub open spec fn read_as(r: Result<ParsedCommand, &'static str>, o: ReadOutcome) -> bool {
    match o {
        ReadOutcome::Failed(e) => r is Err && r->Err_0 == e,
        ReadOutcome::Add(f, p, z, id, name, exp, price, qty) => match r {
            Ok(ParsedCommand::NeedsPrice(PriceWaiting::AddProduct(f2, p2, z2, id2, name2, exp2, qty2), price2)) => {
                &&& f2 == f && p2 == p && z2 == z && id2 == id
                &&& name2@ == name && exp2@ == exp && qty2@ == qty && price2@ == price
            },
            _ => false,
        },
        ReadOutcome::Resupply(id, q) => match r {
            Ok(ParsedCommand::Ready(Command::Resupply(id2, q2))) => id2 == id && q2 == q,
            _ => false,
        },
        ReadOutcome::Remove(id, q) => match r {
            Ok(ParsedCommand::Ready(Command::RemoveProduct(id2, q2))) => id2 == id && q2 == q,
            _ => false,
        },
        ReadOutcome::Price(id, price) => match r {
            Ok(ParsedCommand::NeedsPrice(PriceWaiting::ChangePrice(id2), price2)) => id2 == id && price2@ == price,
            _ => false,
        },
        ReadOutcome::Move(id, f, p, z) => match r {
            Ok(ParsedCommand::Ready(Command::MoveTo(id2, f2, p2, z2))) => id2 == id && f2 == f && p2 == p && z2 == z,
            _ => false,
        },
        ReadOutcome::Show => match r {
            Ok(ParsedCommand::Ready(Command::Show)) => true,
            _ => false,
        },
    }
}

/// Word `n` of `t`, or the characters of `dflt`.
fn word_at(t: &Vec<Vec<char>>, n: usize, dflt: &str) -> (w: Vec<char>)
    ensures
        w@ == (if n < t@.len() { t@[n as int]@ } else { dflt@ }),
{
    if n < t.len() {
        let src = &t[n];
        let mut w: Vec<char> = Vec::new();
        let mut i: usize = 0;
        while i < src.len()
            invariant
                i <= src@.len(),
                w@ == src@.subrange(0, i as int),
            decreases src@.len() - i,
        {
            w.push(src[i]);
            i = i + 1;
        }
        assert(w@ =~= src@);
        w
    } else {
        chars_of(dflt)
    }
}

fn index_at(t: &Vec<Vec<char>>, n: usize, dflt: &str) -> (r: Option<usize>)
    ensures
        match r {
            Some(v) => spec_parse_unsigned((if n < t@.len() { t@[n as int]@ } else { dflt@ }), usize::MAX as int) == Some(v as int),
            None => spec_parse_unsigned((if n < t@.len() { t@[n as int]@ } else { dflt@ }), usize::MAX as int) is None,
        },
{
    let w = word_at(t, n, dflt);
    match parse_unsigned_chars(w.as_slice(), usize::MAX as u64) {
        Some(v) => Some(v as usize),
        None => None,
    }
}

fn id_at(t: &Vec<Vec<char>>, n: usize) -> (r: Option<u32>)
    ensures
        match r {
            Some(v) => spec_parse_unsigned((if n < t@.len() { t@[n as int]@ } else { "Expecting Product ID"@ }), u32::MAX as int) == Some(v as int),
            None => spec_parse_unsigned((if n < t@.len() { t@[n as int]@ } else { "Expecting Product ID"@ }), u32::MAX as int) is None,
        },
{
    let w = word_at(t, n, "Expecting Product ID");
    match parse_unsigned_chars(w.as_slice(), u32::MAX as u64) {
        Some(v) => Some(v as u32),
        None => None,
    }
}

fn place_at(t: &Vec<Vec<char>>, n: usize, Ghost(tw): Ghost<Seq<Seq<char>>>) -> (r: Result<(usize, usize, usize), &'static str>)
    requires
        n < 8,
        tw.len() == t@.len(),
        forall|q: int| 0 <= q < t@.len() ==> (#[trigger] t@[q])@ == tw[q],
    ensures
        match read_place(tw, n as int) {
            Ok(c) => r is Ok && r->Ok_0.0 == c.0 && r->Ok_0.1 == c.1 && r->Ok_0.2 == c.2,
            Err(e) => r is Err && r->Err_0 == e,
        },
{
    let f = match index_at(t, n, "Expecting Fila") {
        Some(v) => v,
        None => return Err("Failed to parse 'Fila'"),
    };
    let p = match index_at(t, n + 1, "Expecting Prateleira") {
        Some(v) => v,
        None => return Err("Failed to parse 'Prateleira'"),
    };
    let z = match index_at(t, n + 2, "Expecting Zona") {
        Some(v) => v,
        None => return Err("Failed to parse 'Zona'"),
    };
    Ok((f, p, z))
}

impl Supermarket {
    /// Reads a command line: the first word names the command, the words
    /// after it its arguments, a missing word standing as a text that does
    /// not parse. A price word is handed back unread.
    pub fn read_command(&self, command: &str) -> (r: Result<ParsedCommand, &'static str>)
        requires
            tokens(command@, true).len() > 0,
        ensures
            read_as(r, read_outcome(tokens(command@, true))),
    {
        let ghost tw = tokens(command@, true);
        let cs = chars_of(command);
        let t = split_tokens(cs.as_slice(), true);
        proof {
            assert(t@[0]@ == tw[0]);
        }
        let op = t[0].as_slice();
        if spells(op, "addProduct") {
            let c = match place_at(&t, 1, Ghost(tw)) {
                Ok(c) => c,
                Err(e) => return Err(e),
            };
            let id = match id_at(&t, 4) {
                Some(v) => v,
                None => return Err("Invalid ID"),
            };
            let name = word_at(&t, 5, "Expecting Product Name");
            let expiration = word_at(&t, 6, "Expecting Product Expiration Date");
            let price = word_at(&t, 7, "Expecting Product Price");
            let quantity = word_at(&t, 8, "Expecting Product Quantity");
            Ok(
                ParsedCommand::NeedsPrice(
                    PriceWaiting::AddProduct(
                        c.0,
                        c.1,
                        c.2,
                        id,
                        string_from_chars(name.as_slice()),
                        string_from_chars(expiration.as_slice()),
                        string_from_chars(quantity.as_slice()),
                    ),
                    string_from_chars(price.as_slice()),
                ),
            )
        } else if spells(op, "resupply") || spells(op, "removeProduct") {
            let id = match id_at(&t, 1) {
                Some(v) => v,
                None => return Err("Invalid ID"),
            };
            let q = match index_at(&t, 2, "Expecting Product Quantity") {
                Some(v) => v,
                None => return Err("Invalid quantity"),
            };
            if spells(op, "resupply") {
                Ok(ParsedCommand::Ready(Command::Resupply(id, q)))
            } else {
                Ok(ParsedCommand::Ready(Command::RemoveProduct(id, q)))
            }
        } else if spells(op, "changePrice") {
            let id = match id_at(&t, 1) {
                Some(v) => v,
                None => return Err("Invalid ID"),
            };
            let price = word_at(&t, 2, "Expecting Product Price");
            Ok(ParsedCommand::NeedsPrice(PriceWaiting::ChangePrice(id), string_from_chars(price.as_slice())))
        } else if spells(op, "moveTo") {
            let id = match id_at(&t, 1) {
                Some(v) => v,
                None => return Err("Invalid ID"),
            };
            let c = match place_at(&t, 2, Ghost(tw)) {
                Ok(c) => c,
                Err(e) => return Err(e),
            };
            Ok(ParsedCommand::Ready(Command::MoveTo(id, c.0, c.1, c.2)))
        } else if spells(op, "show") {
            Ok(ParsedCommand::Ready(Command::Show))
        } else {
            Err("Command Not valid")
        }
    }
}

impl PriceWaiting {
    /// Completes the command with the price read from its price word
    /// (`None` where that word is not a number).
    pub fn with_price(self, price: Option<u64>) -> (r: Result<Command, &'static str>)
        ensures
            match self {
                PriceWaiting::AddProduct(f, p, z, id, name, exp, qty) => match price {
                    None => r == Err::<Command, &'static str>("Invalid Price"),
                    Some(bits) => match spec_parse_unsigned(qty@, usize::MAX as int) {
                        None => r == Err::<Command, &'static str>("Invalid quantity"),
                        Some(q) => r == Ok::<Command, &'static str>(Command::AddProduct(
                            f,
                            p,
                            z,
                            Product { id, name, expiration: exp, price_bits: bits, quantity: q as usize },
                        )),
                    },
                },
                PriceWaiting::ChangePrice(id) => match price {
                    None => r == Err::<Command, &'static str>("Invalid price"),
                    Some(bits) => r == Ok::<Command, &'static str>(Command::ChangePrice(id, bits)),
                },
            },
    {
        match self {
            PriceWaiting::AddProduct(f, p, z, id, name, expiration, qty) => {
                let bits = match price {
                    Some(b) => b,
                    None => return Err("Invalid Price"),
                };
                let cs = chars_of(qty.as_str());
                let q = match parse_unsigned_chars(cs.as_slice(), usize::MAX as u64) {
                    Some(v) => v as usize,
                    None => return Err("Invalid quantity"),
                };
                Ok(Command::AddProduct(f, p, z, Product { id, name, expiration, price_bits: bits, quantity: q }))
            },
            PriceWaiting::ChangePrice(id) => match price {
                Some(bits) => Ok(Command::ChangePrice(id, bits)),
                None => Err("Invalid price"),
            },
        }
    }
}

} // verus!
