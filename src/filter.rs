//! Tag filters: `key`, `key=value`, `key=value1,value2`, joined by `&`.
//!
//! A filter holds when every one of its conditions holds. A bare key asks
//! that the tag be there; a key with values asks that the tag's value be one
//! of them. The empty filter holds of everything.
use vstd::prelude::*;
use vstd::string::*;
use crate::parse_status::ParseError;

verus! {

/// A tag list as text: key and value of each tag, in order. A list may repeat
/// a key; the first tag with a key is the one that counts.
pub open spec fn tags_view(tags: Seq<(String, String)>) -> Seq<(Seq<char>, Seq<char>)> {
    tags.map_values(|t: (String, String)| (t.0@, t.1@))
}

/// A copy of a tag list.
pub fn copy_tags(tags: &Vec<(String, String)>) -> (r: Vec<(String, String)>)
    ensures
        r@ == tags@,
{
    let mut r: Vec<(String, String)> = Vec::new();
    let mut i: usize = 0;
    while i < tags.len()
        invariant
            i <= tags.len(),
            r@ =~= tags@.subrange(0, i as int),
        decreases tags.len() - i,
    {
        let k = tags[i].0.clone();
        let v = tags[i].1.clone();
        r.push((k, v));
        i += 1;
    }
    r
}

/// The pieces of `s` between the occurrences of `c`, as `str::split` cuts them.
pub open spec fn split_on(s: Seq<char>, c: char) -> Seq<Seq<char>>
    decreases s.len(),
{
    if s.len() == 0 {
        seq![Seq::empty()]
    } else {
        let rest = split_on(s.drop_last(), c);
        if s.last() == c {
            rest.push(Seq::empty())
        } else {
            rest.update(rest.len() - 1, rest.last().push(s.last()))
        }
    }
}

proof fn lemma_split_nonempty(s: Seq<char>, c: char)
    ensures
        split_on(s, c).len() >= 1,
    decreases s.len(),
{
    if s.len() > 0 {
        lemma_split_nonempty(s.drop_last(), c);
    }
}

/// One condition: a key, and the values allowed for it when there are any.
pub open spec fn condition_of(term: Seq<char>) -> (Seq<char>, Option<Seq<Seq<char>>>) {
    let parts = split_on(term, '=');
    (parts[0], if parts.len() >= 2 { Some(split_on(parts[1], ',')) } else { None })
}

/// The conditions that a filter text stands for, or `None` when one of them
/// has an empty key.
pub open spec fn filter_spec(expr: Seq<char>) -> Option<Seq<(Seq<char>, Option<Seq<Seq<char>>>)>> {
    if expr.len() == 0 {
        Some(Seq::empty())
    } else {
        let terms = split_on(expr, '&');
        if exists|i: int| 0 <= i < terms.len() && (#[trigger] condition_of(terms[i])).0.len() == 0 {
            None
        } else {
            Some(terms.map_values(|t: Seq<char>| condition_of(t)))
        }
    }
}

/// The value of the first tag with key `key`.
pub open spec fn first_value(tags: Seq<(Seq<char>, Seq<char>)>, key: Seq<char>) -> Option<Seq<char>>
    decreases tags.len(),
{
    if tags.len() == 0 {
        None
    } else if tags[0].0 == key {
        Some(tags[0].1)
    } else {
        first_value(tags.drop_first(), key)
    }
}

pub open spec fn condition_holds(
    cond: (Seq<char>, Option<Seq<Seq<char>>>),
    tags: Seq<(Seq<char>, Seq<char>)>,
) -> bool {
    match first_value(tags, cond.0) {
        None => false,
        Some(v) => match cond.1 {
            None => true,
            Some(vs) => vs.contains(v),
        },
    }
}

pub open spec fn filter_holds(
    conds: Seq<(Seq<char>, Option<Seq<Seq<char>>>)>,
    tags: Seq<(Seq<char>, Seq<char>)>,
) -> bool {
    forall|i: int| 0 <= i < conds.len() ==> condition_holds(#[trigger] conds[i], tags)
}

/// One condition of a filter.
#[derive(Debug)]
pub struct TagCondition {
    pub key: String,
    pub values: Option<Vec<String>>,
}

impl TagCondition {
    pub open spec fn view(&self) -> (Seq<char>, Option<Seq<Seq<char>>>) {
        (
            self.key@,
            match self.values {
                None => None,
                Some(vs) => Some(vs@.map_values(|v: String| v@)),
            },
        )
    }
}

/// A compiled tag filter.
#[derive(Debug)]
pub struct TagFilter {
    pub conditions: Vec<TagCondition>,
}

/// The filter of public transport routes (PTv2): named routes of the usual
/// kinds that carry a `route_master` tag.
pub const PTV2_FILTER: &'static str =
    "name&route_master&route=bus,tram,train,subway,light_rail,monorail,trolleybus";

/// The filter of administrative areas.
pub const ADMIN_AREA_FILTER: &'static str = "name&admin_level&boundary=administrative";

fn split_exec(s: &str, c: char) -> (r: Vec<String>)
    ensures
        r@.map_values(|p: String| p@) == split_on(s@, c),
{
    let n = s.unicode_len();
    let mut pieces: Vec<String> = Vec::new();
    let mut start: usize = 0;
    let mut i: usize = 0;
    assert(s@.subrange(0, 0) =~= Seq::<char>::empty());
    while i < n
        invariant
            n == s@.len(),
            start <= i <= n,
            pieces@.map_values(|p: String| p@) + seq![s@.subrange(start as int, i as int)]
                == split_on(s@.subrange(0, i as int), c),
        decreases n - i,
    {
        let ch = s.get_char(i);
        let ghost prefix = s@.subrange(0, i + 1);
        assert(prefix.drop_last() =~= s@.subrange(0, i as int));
        assert(prefix.last() == ch);
        let ghost before = pieces@.map_values(|p: String| p@);
        if ch == c {
            let piece = String::from_str(s.substring_char(start, i));
            pieces.push(piece);
            assert(pieces@.map_values(|p: String| p@) =~= before.push(s@.subrange(start as int, i as int)));
            start = i + 1;
            assert(s@.subrange(start as int, i + 1) =~= Seq::<char>::empty());
        } else {
            assert(s@.subrange(start as int, i + 1) =~= s@.subrange(start as int, i as int).push(ch));
        }
        i += 1;
    }
    let last = String::from_str(s.substring_char(start, n));
    let ghost before = pieces@.map_values(|p: String| p@);
    pieces.push(last);
    assert(pieces@.map_values(|p: String| p@) =~= before + seq![s@.subrange(start as int, n as int)]);
    assert(s@.subrange(0, n as int) =~= s@);
    pieces
}

fn copy_strings(v: &Vec<String>) -> (r: Vec<String>)
    ensures
        r@.map_values(|p: String| p@) == v@.map_values(|p: String| p@),
{
    let mut r: Vec<String> = Vec::new();
    let mut i: usize = 0;
    while i < v.len()
        invariant
            i <= v.len(),
            r@.map_values(|p: String| p@) =~= v@.map_values(|p: String| p@).subrange(0, i as int),
        decreases v.len() - i,
    {
        let ghost before = r@.map_values(|p: String| p@);
        r.push(v[i].clone());
        assert(r@.map_values(|p: String| p@) =~= before.push(v@[i as int]@));
        i += 1;
    }
    r
}

impl TagFilter {
    pub open spec fn view(&self) -> Seq<(Seq<char>, Option<Seq<Seq<char>>>)> {
        self.conditions@.map_values(|c: TagCondition| c.view())
    }

    /// Compiles a filter text; a condition with an empty key is an error.
    pub fn parse(expr: &str) -> (r: Result<TagFilter, ParseError>)
        ensures
            match r {
                Ok(f) => filter_spec(expr@) == Some(f.view()),
                Err(_) => filter_spec(expr@) is None,
            },
    {
        let mut conditions: Vec<TagCondition> = Vec::new();
        if expr.unicode_len() == 0 {
            let f = TagFilter { conditions };
            assert(f.view() =~= Seq::empty());
            return Ok(f);
        }
        let terms = split_exec(expr, '&');
        let ghost tv = terms@.map_values(|p: String| p@);
        let mut i: usize = 0;
        while i < terms.len()
            invariant
                i <= terms.len(),
                tv == terms@.map_values(|p: String| p@),
                tv == split_on(expr@, '&'),
                expr@.len() != 0,
                conditions@.map_values(|c: TagCondition| c.view()) =~= tv.subrange(
                    0,
                    i as int,
                ).map_values(|t: Seq<char>| condition_of(t)),
                forall|j: int| 0 <= j < i ==> (#[trigger] condition_of(tv[j])).0.len() > 0,
            decreases terms.len() - i,
        {
            assert(tv[i as int] == terms@[i as int]@);
            let parts = split_exec(terms[i].as_str(), '=');
            proof {
                lemma_split_nonempty(tv[i as int], '=');
            }
            assert(parts@.map_values(|p: String| p@)[0] == parts[0]@);
            assert(condition_of(tv[i as int]).0 == parts@.map_values(|p: String| p@)[0]);
            if parts[0].unicode_len() == 0 {
                assert((condition_of(tv[i as int])).0.len() == 0);
                assert(expr@.len() != 0);
                assert(split_on(expr@, '&')[i as int] == tv[i as int]);
                return Err(ParseError);
            }
            let values = if parts.len() >= 2 {
                assert(parts@.map_values(|p: String| p@)[1] == parts[1]@);
                Some(split_exec(parts[1].as_str(), ','))
            } else {
                None
            };
            let cond = TagCondition { key: parts[0].clone(), values };
            assert(cond.view() == condition_of(tv[i as int]));
            let ghost before = conditions@.map_values(|c: TagCondition| c.view());
            conditions.push(cond);
            assert(conditions@.map_values(|c: TagCondition| c.view()) =~= before.push(
                condition_of(tv[i as int]),
            ));
            assert(tv.subrange(0, i + 1) =~= tv.subrange(0, i as int).push(tv[i as int]));
            i += 1;
        }
        let f = TagFilter { conditions };
        assert(tv.subrange(0, tv.len() as int) =~= tv);
        assert(f.view() =~= tv.map_values(|t: Seq<char>| condition_of(t)));
        Ok(f)
    }

    /// Whether a tag list passes the filter.
    pub fn matches(&self, tags: &Vec<(String, String)>) -> (r: bool)
        ensures
            r == filter_holds(self.view(), tags_view(tags@)),
    {
        let mut i: usize = 0;
        while i < self.conditions.len()
            invariant
                i <= self.conditions.len(),
                forall|j: int|
                    0 <= j < i ==> condition_holds(#[trigger] self.view()[j], tags_view(tags@)),
            decreases self.conditions.len() - i,
        {
            let cond = &self.conditions[i];
            assert(self.view()[i as int] == cond.view());
            if !condition_met(cond, tags) {
                return false;
            }
            i += 1;
        }
        true
    }
}

fn condition_met(cond: &TagCondition, tags: &Vec<(String, String)>) -> (r: bool)
    ensures
        r == condition_holds(cond.view(), tags_view(tags@)),
{
    let ghost tv = tags_view(tags@);
    assert(tv.subrange(0, tv.len() as int) =~= tv);
    let mut i: usize = 0;
    while i < tags.len()
        invariant
            i <= tags.len(),
            tv == tags_view(tags@),
            first_value(tv, cond.key@) == first_value(tv.subrange(i as int, tv.len() as int), cond.key@),
        decreases tags.len() - i,
    {
        let ghost rest = tv.subrange(i as int, tv.len() as int);
        assert(rest[0] == (tags[i as int].0@, tags[i as int].1@));
        if tags[i].0 == cond.key {
            assert(rest.len() > 0 && rest[0].0 == cond.key@);
            assert(first_value(rest, cond.key@) == Some(tags[i as int].1@));
            match &cond.values {
                None => {
                    return true;
                },
                Some(vs) => {
                    let ghost vv = vs@.map_values(|v: String| v@);
                    let value = &tags[i].1;
                    let mut k: usize = 0;
                    while k < vs.len()
                        invariant
                            k <= vs.len(),
                            vv == vs@.map_values(|v: String| v@),
                            forall|j: int| 0 <= j < k ==> vv[j] != value@,
                            tv == tags_view(tags@),
                            first_value(tv, cond.key@) == Some(value@),
                            cond.view().1 == Some(vv),
                        decreases vs.len() - k,
                    {
                        if vs[k] == *value {
                            assert(vv[k as int] == value@);
                            assert(vv.contains(value@));
                            return true;
                        }
                        k += 1;
                    }
                    return false;
                },
            }
        }
        assert(rest.drop_first() =~= tv.subrange(i + 1, tv.len() as int));
        i += 1;
    }
    false
}

} // verus!
