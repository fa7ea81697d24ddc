//! The universe of parsed and computed values: a tagged variant of
//! integers, floats (held as IEEE-754 binary64 bit patterns), byte
//! strings, text strings and homogeneous sequences. Equality is
//! structural; sequences compare element-wise.

use vstd::prelude::*;

verus! {

/// A parsed or computed value.
///
/// `Float` holds the raw bits of an IEEE-754 binary64 number; 32-bit
/// reads are widened losslessly to 64 bits before being stored.
#[derive(Debug)]
pub enum Data {
    Int(i64),
    Float(u64),
    Bytes(Vec<u8>),
    Str(String),
    List(Vec<Data>),
}

/// The mathematical shape of a `Data` value: the same tree with byte
/// strings as `Seq<u8>`, text as `Seq<char>` and sequences as `Seq`.
#[verifier::ext_equal]
pub enum DataView {
    Int(i64),
    Float(u64),
    Bytes(Seq<u8>),
    Str(Seq<char>),
    List(Seq<DataView>),
}

pub open spec fn data_view(d: Data) -> DataView
    decreases d, 1nat,
{
    match d {
        Data::Int(i) => DataView::Int(i),
        Data::Float(b) => DataView::Float(b),
        Data::Bytes(v) => DataView::Bytes(v@),
        Data::Str(s) => DataView::Str(s@),
        Data::List(ds) => DataView::List(views_of(ds@)),
    }
}

/// The views of a sequence of values, element-wise.
pub open spec fn views_of(s: Seq<Data>) -> Seq<DataView>
    decreases s, 0nat,
{
    if s.len() == 0 {
        Seq::empty()
    } else {
        seq![data_view(s[0])] + views_of(s.subrange(1, s.len() as int))
    }
}

impl View for Data {
    type V = DataView;

    open spec fn view(&self) -> DataView {
        data_view(*self)
    }
}

/// `views_of` is the element-wise view.
pub proof fn lemma_views_of(s: Seq<Data>)
    ensures
        views_of(s).len() == s.len(),
        forall|i: int| 0 <= i < s.len() ==> #[trigger] views_of(s)[i] == data_view(s[i]),
    decreases s.len(),
{
    if s.len() > 0 {
        let rest = s.subrange(1, s.len() as int);
        lemma_views_of(rest);
        assert forall|i: int| 0 <= i < s.len() implies views_of(s)[i] == data_view(s[i]) by {
            if i > 0 {
                assert(views_of(s)[i] == views_of(rest)[i - 1]);
                assert(rest[i - 1] == s[i]);
            }
        }
    }
}

impl Data {
    /// Wraps a vector of values as a sequence value.
    pub fn seq(vec: Vec<Data>) -> (r: Data)
        ensures
            r@ == DataView::List(views_of(vec@)),
    {
        Data::List(vec)
    }

    /// A structural copy of this value.
    #[verifier::loop_isolation(false)]
    pub fn dup(&self) -> (r: Data)
        ensures
            r@ == self@,
        decreases self,
    {
        match self {
            Data::Int(i) => Data::Int(*i),
            Data::Float(b) => Data::Float(*b),
            Data::Bytes(v) => {
                let mut out: Vec<u8> = Vec::new();
                let mut j: usize = 0;
                while j < v.len()
                    invariant
                        j <= v@.len(),
                        out@ == v@.subrange(0, j as int),
                    decreases v@.len() - j,
                {
                    out.push(v[j]);
                    proof {
                        assert(out@ =~= v@.subrange(0, j + 1));
                    }
                    j = j + 1;
                }
                proof {
                    assert(v@.subrange(0, v@.len() as int) =~= v@);
                }
                Data::Bytes(out)
            },
            Data::Str(s) => Data::Str(s.clone()),
            Data::List(ds) => {
                let mut out: Vec<Data> = Vec::new();
                let mut j: usize = 0;
                while j < ds.len()
                    invariant
                        j <= ds@.len(),
                        out@.len() == j,
                        forall|i: int| 0 <= i < j ==> data_view(#[trigger] out@[i]) == data_view(ds@[i]),
                    decreases ds@.len() - j,
                {
                    proof {
                        assert(decreases_to!(*self => self->List_0));
                        assert(self->List_0 == *ds);
                        assert(decreases_to!(*ds => ds@));
                        assert(decreases_to!(ds@ => ds@[j as int]));
                    }
                    let d = (&ds[j]).dup();
                    out.push(d);
                    j = j + 1;
                }
                proof {
                    lemma_views_of(out@);
                    lemma_views_of(ds@);
                    assert(views_of(out@) =~= views_of(ds@));
                }
                Data::List(out)
            },
        }
    }

    /// The integer inside an `Int` value.
    pub fn i64(&self) -> (r: Option<i64>)
        ensures
            r == (match self@ {
                DataView::Int(i) => Some(i),
                _ => None::<i64>,
            }),
    {
        if let Data::Int(i) = self {
            Some(*i)
        } else {
            None
        }
    }

    /// The IEEE-754 binary64 bit pattern inside a `Float` value.
    pub fn float_bits(&self) -> (r: Option<u64>)
        ensures
            r == (match self@ {
                DataView::Float(b) => Some(b),
                _ => None::<u64>,
            }),
    {
        if let Data::Float(b) = self {
            Some(*b)
        } else {
            None
        }
    }

    /// The byte string inside a `Bytes` value.
    pub fn bytes(&self) -> (r: Option<&Vec<u8>>)
        ensures
            match self@ {
                DataView::Bytes(v) => r is Some && r->0@ == v,
                _ => r is None,
            },
    {
        if let Data::Bytes(v) = self {
            Some(v)
        } else {
            None
        }
    }

    /// The text inside a `Str` value.
    pub fn str(&self) -> (r: Option<&String>)
        ensures
            match self@ {
                DataView::Str(s) => r is Some && r->0@ == s,
                _ => r is None,
            },
    {
        if let Data::Str(s) = self {
            Some(s)
        } else {
            None
        }
    }

    /// The elements inside a `List` value.
    pub fn list(&self) -> (r: Option<&Vec<Data>>)
        ensures
            match self@ {
                DataView::List(ds) => r is Some && views_of(r->0@) == ds,
                _ => r is None,
            },
    {
        if let Data::List(ds) = self {
            proof {
                assert(views_of(ds@) =~= (match self@ {
                    DataView::List(x) => x,
                    _ => views_of(ds@),
                }));
            }
            Some(ds)
        } else {
            None
        }
    }

    /// The integer inside an `Int` value, truncated to 8 bits.
    pub fn u8(&self) -> (r: Option<u8>)
        ensures
            r == (match self@ {
                DataView::Int(i) => Some(i as u8),
                _ => None::<u8>,
            }),
    {
        match self.i64() {
            Some(i) => Some(#[verifier::truncate] (i as u8)),
            None => None,
        }
    }

    /// The integer inside an `Int` value, truncated to 16 bits.
    pub fn u16(&self) -> (r: Option<u16>)
        ensures
            r == (match self@ {
                DataView::Int(i) => Some(i as u16),
                _ => None::<u16>,
            }),
    {
        match self.i64() {
            Some(i) => Some(#[verifier::truncate] (i as u16)),
            None => None,
        }
    }

    /// The integer inside an `Int` value, truncated to 32 bits.
    pub fn u32(&self) -> (r: Option<u32>)
        ensures
            r == (match self@ {
                DataView::Int(i) => Some(i as u32),
                _ => None::<u32>,
            }),
    {
        match self.i64() {
            Some(i) => Some(#[verifier::truncate] (i as u32)),
            None => None,
        }
    }

    /// The integer inside an `Int` value, reinterpreted as unsigned.
    pub fn u64(&self) -> (r: Option<u64>)
        ensures
            r == (match self@ {
                DataView::Int(i) => Some(i as u64),
                _ => None::<u64>,
            }),
    {
        match self.i64() {
            Some(i) => Some(#[verifier::truncate] (i as u64)),
            None => None,
        }
    }

    /// The integer inside an `Int` value, truncated to 8 signed bits.
    pub fn i8(&self) -> (r: Option<i8>)
        ensures
            r == (match self@ {
                DataView::Int(i) => Some(i as i8),
                _ => None::<i8>,
            }),
    {
        match self.i64() {
            Some(i) => Some(#[verifier::truncate] (i as i8)),
            None => None,
        }
    }

    /// The integer inside an `Int` value, truncated to 16 signed bits.
    pub fn i16(&self) -> (r: Option<i16>)
        ensures
            r == (match self@ {
                DataView::Int(i) => Some(i as i16),
                _ => None::<i16>,
            }),
    {
        match self.i64() {
            Some(i) => Some(#[verifier::truncate] (i as i16)),
            None => None,
        }
    }

    /// The integer inside an `Int` value, truncated to 32 signed bits.
    pub fn i32(&self) -> (r: Option<i32>)
        ensures
            r == (match self@ {
                DataView::Int(i) => Some(i as i32),
                _ => None::<i32>,
            }),
    {
        match self.i64() {
            Some(i) => Some(#[verifier::truncate] (i as i32)),
            None => None,
        }
    }
}

/// Structural equality of two values: `true` exactly when their
/// mathematical shapes agree.
#[verifier::loop_isolation(false)]
pub fn data_eq(a: &Data, b: &Data) -> (r: bool)
    ensures
        r == (a@ == b@),
    decreases a,
{
    match a {
        Data::Int(x) => {
            match b {
                Data::Int(y) => {
                    proof {
                        assert(a@ == DataView::Int(*x));
                        assert(b@ == DataView::Int(*y));
                    }
                    *x == *y
                },
                _ => {
                    proof {
                        assert(a@ is Int);
                        assert(!(b@ is Int));
                    }
                    false
                },
            }
        },
        Data::Float(x) => {
            match b {
                Data::Float(y) => {
                    proof {
                        assert(a@ == DataView::Float(*x));
                        assert(b@ == DataView::Float(*y));
                    }
                    *x == *y
                },
                _ => {
                    proof {
                        assert(a@ is Float);
                        assert(!(b@ is Float));
                    }
                    false
                },
            }
        },
        Data::Bytes(x) => {
            let Data::Bytes(y) = b else {
                return false;
            };
            if x.len() != y.len() {
                proof {
                    assert(a@ != b@);
                }
                false
            } else {
                let mut j: usize = 0;
                let mut same = true;
                while j < x.len()
                    invariant
                        j <= x@.len(),
                        x@.len() == y@.len(),
                        same == (x@.subrange(0, j as int) =~= y@.subrange(0, j as int)),
                    decreases x@.len() - j,
                {
                    proof {
                        assert(x@.subrange(0, j + 1).drop_last() =~= x@.subrange(0, j as int));
                        assert(y@.subrange(0, j + 1).drop_last() =~= y@.subrange(0, j as int));
                        assert(x@.subrange(0, j + 1).last() == x@[j as int]);
                        assert(y@.subrange(0, j + 1).last() == y@[j as int]);
                    }
                    if x[j] != y[j] {
                        same = false;
                        proof {
                            assert(x@.subrange(0, j + 1)[j as int] != y@.subrange(0, j + 1)[j as int]);
                        }
                    }
                    proof {
                        if same && x@.subrange(0, j as int) =~= y@.subrange(0, j as int)
                            && x@[j as int] == y@[j as int] {
                            assert(x@.subrange(0, j + 1) =~= y@.subrange(0, j + 1));
                        }
                    }
                    j = j + 1;
                }
                proof {
                    assert(x@.subrange(0, x@.len() as int) =~= x@);
                    assert(y@.subrange(0, y@.len() as int) =~= y@);
                    if x@ == y@ {
                        assert(a@ == b@);
                    } else {
                        assert(a@ != b@);
                    }
                }
                same
            }
        },
        Data::Str(x) => {
            let Data::Str(y) = b else {
                return false;
            };
            let r = x.eq(y);
            proof {
                if x@ == y@ {
                    assert(a@ == b@);
                } else {
                    assert(a@ != b@);
                }
                assert(r == (a@ == b@));
            }
            r
        },
        Data::List(x) => {
            let Data::List(y) = b else {
                return false;
            };
            if x.len() != y.len() {
                proof {
                    lemma_views_of(x@);
                    lemma_views_of(y@);
                    assert(views_of(x@).len() != views_of(y@).len());
                    assert(a@ == DataView::List(views_of(x@)));
                    assert(b@ == DataView::List(views_of(y@)));
                }
                false
            } else {
                let mut j: usize = 0;
                let mut same = true;
                while j < x.len()
                    invariant
                        j <= x@.len(),
                        x@.len() == y@.len(),
                        same == (forall|i: int| 0 <= i < j
                            ==> data_view(#[trigger] x@[i]) == data_view(y@[i])),
                    decreases x@.len() - j,
                {
                    proof {
                        assert(decreases_to!(*a => a->List_0));
                        assert(a->List_0 == *x);
                        assert(decreases_to!(*x => x@));
                        assert(decreases_to!(x@ => x@[j as int]));
                    }
                    if !data_eq(&x[j], &y[j]) {
                        same = false;
                    }
                    j = j + 1;
                }
                proof {
                    lemma_views_of(x@);
                    lemma_views_of(y@);
                    let xv = views_of(x@);
                    let yv = views_of(y@);
                    if same {
                        assert(xv =~= yv);
                        assert(a@ == b@);
                    } else {
                        let i = choose|i: int| 0 <= i < x@.len()
                            && data_view(x@[i]) != data_view(y@[i]);
                        assert(xv[i] != yv[i]);
                        assert(a@ != b@);
                    }
                }
                same
            }
        },
    }
}

impl PartialEq for Data {
    fn eq(&self, other: &Data) -> (r: bool) {
        data_eq(self, other)
    }
}

impl vstd::std_specs::cmp::PartialEqSpecImpl for Data {
    open spec fn obeys_eq_spec() -> bool {
        true
    }

    open spec fn eq_spec(&self, other: &Data) -> bool {
        self@ == other@
    }
}

} // verus!
