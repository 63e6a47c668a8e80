//! The listing of the mosaic's objects: which there are, and which to fetch.

use crate::calendar::{
    day_before, day_text, format_day, is_day, moment_of, parse_moment, Stamp, DAY_PATH_FORMAT,
    FIRST_DAY,
};
use crate::text::{
    after_last, after_last_drops_the_front, ahead, behind, listed, same_text, strip_back,
    strip_front, stripping_takes_off_an_end, text_after_last, text_behind_the_last_is_its_end,
    views,
};
use vstd::prelude::*;

verus! {

pub const HOST: &'static str = "https://s3.waw3-1.cloudferro.com/openradar-24h";

pub const KEY_FORMAT: &'static str = "%Y%m%dT%H%M";

pub const LISTING_FAILED: &'static str = "reading OPERA listing: ";

/// One object of the mosaic: its key, and the moment that the key names.
#[derive(Debug, PartialEq, Eq)]
pub struct CompObject {
    pub key: String,
    pub stamp: Stamp,
}

pub struct CompView {
    pub key: Seq<char>,
    pub stamp: i64,
}

impl View for CompObject {
    type V = CompView;

    open spec fn view(&self) -> CompView {
        CompView { key: self.key@, stamp: self.stamp.secs() }
    }
}

impl Clone for CompObject {
    fn clone(&self) -> (r: CompObject)
        ensures
            r == *self,
    {
        CompObject { key: self.key.clone(), stamp: self.stamp }
    }
}

pub open spec fn comp_views(objects: Seq<CompObject>) -> Seq<CompView> {
    objects.map_values(|o: CompObject| o@)
}

/// The text of the moment in a key: what stands between `OPERA@` and `@0@DBZH.tiff`
/// behind the last slash.
pub open spec fn stamp_text(key: Seq<char>) -> Option<Seq<char>> {
    match behind(after_last(key, '/'), "OPERA@"@) {
        None => None,
        Some(rest) => ahead(rest, "@0@DBZH.tiff"@),
    }
}

/// The moment that a key names.
pub open spec fn stamp_of(key: Seq<char>) -> Option<i64> {
    match stamp_text(key) {
        None => None,
        Some(text) => moment_of(text, KEY_FORMAT@),
    }
}

/// The text of the moment in a key.
pub fn key_stamp(key: &str) -> (r: Option<String>)
    ensures
        r is Some <==> stamp_text(key@) is Some,
        r matches Some(text) ==> stamp_text(key@) == Some(text@),
{
    let name = text_after_last(key, '/');
    match strip_front(name.as_str(), "OPERA@") {
        None => None,
        Some(rest) => strip_back(rest.as_str(), "@0@DBZH.tiff"),
    }
}

/// The moment in a key such as `.../OPERA/COMP/OPERA@YYYYMMDDTHHMM@0@DBZH.tiff`.
pub fn parse_dbzh_key(key: &str) -> (r: Option<Stamp>)
    ensures
        r is Some <==> stamp_of(key@) is Some,
        r matches Some(stamp) ==> stamp_of(key@) == Some(stamp.secs()),
{
    match key_stamp(key) {
        None => None,
        Some(text) => match parse_moment(text.as_str(), KEY_FORMAT) {
            None => None,
            Some(secs) => Stamp::at(secs),
        },
    }
}

/// The key of a moment's text in a folder gives that text back.
pub proof fn key_names_its_stamp(folder: Seq<char>, text: Seq<char>)
    requires
        !text.contains('/'),
    ensures
        stamp_text(folder.push('/') + ("OPERA@"@ + text + "@0@DBZH.tiff"@)) == Some(text),
{
    reveal_strlit("OPERA@");
    reveal_strlit("@0@DBZH.tiff");
    let front = "OPERA@"@;
    let back = "@0@DBZH.tiff"@;
    let name = front + text + back;
    assert(!name.contains('/')) by {
        if name.contains('/') {
            let i = choose|i: int| 0 <= i < name.len() && name[i] == '/';
            if i < 6 {
                assert(front[i] == '/');
            } else if i < 6 + text.len() {
                assert(text[i - 6] == '/');
            } else {
                assert(back[i - 6 - text.len()] == '/');
            }
        }
    }
    after_last_drops_the_front(folder, name, '/');
    let rest = text + back;
    assert(name.take(6) =~= front);
    assert(name.skip(6) =~= rest);
    assert(rest.skip(rest.len() - back.len()) =~= back);
    assert(rest.take(rest.len() - back.len()) =~= text);
}

/// Where the objects of a day are kept.
pub open spec fn prefix_of(day: i32) -> Seq<char> {
    day_text(day, DAY_PATH_FORMAT@) + "/OPERA/COMP/"@
}

pub fn prefix_for(day: i32) -> (r: String)
    requires
        is_day(day as int),
    ensures
        r@ == prefix_of(day),
{
    path_prefix(format_day(day, DAY_PATH_FORMAT))
}

/// The folder of the objects under the path of a day.
pub fn path_prefix(path: String) -> (r: String)
    ensures
        r@ == path@ + "/OPERA/COMP/"@,
{
    let mut r = path;
    r.append("/OPERA/COMP/");
    r
}

/// The address that lists the objects under a prefix.
pub fn list_url(prefix: &str) -> (r: String)
    ensures
        r@ == HOST@ + "?list-type=2&prefix="@ + prefix@ + "&max-keys=1000"@,
{
    let mut r = HOST.to_owned();
    r.append("?list-type=2&prefix=");
    r.append(prefix);
    r.append("&max-keys=1000");
    r
}

/// The address of an object.
pub fn object_url(key: &str) -> (r: String)
    ensures
        r@ == HOST@ + "/"@ + key@,
{
    let mut r = HOST.to_owned();
    r.append("/");
    r.append(key);
    r
}

/// One event of an XML document, as far as a listing reads it.
#[derive(Debug)]
pub enum XmlStep {
    /// The start of an element, by its local name.
    Open(String),
    /// The end of an element, by its local name.
    Close(String),
    Text(String),
    /// The document is broken here.
    Failed(String),
    Other,
}

pub enum StepView {
    Open(Seq<char>),
    Close(Seq<char>),
    Text(Seq<char>),
    Failed(Seq<char>),
    Other,
}

impl View for XmlStep {
    type V = StepView;

    open spec fn view(&self) -> StepView {
        match self {
            XmlStep::Open(name) => StepView::Open(name@),
            XmlStep::Close(name) => StepView::Close(name@),
            XmlStep::Text(text) => StepView::Text(text@),
            XmlStep::Failed(error) => StepView::Failed(error@),
            XmlStep::Other => StepView::Other,
        }
    }
}

pub open spec fn step_views(steps: Seq<XmlStep>) -> Seq<StepView> {
    steps.map_values(|s: XmlStep| s@)
}

/// The events that `xml::reader::EventReader` reads in a document.
pub uninterp spec fn xml_steps(body: Seq<char>) -> Seq<StepView>;

/// Iterates over `xml::reader::EventReader::new`. The claim is that the events depend
/// on the document alone; which they are is not stated.
#[verifier::external_body]
fn read_xml(body: &str) -> (r: Vec<XmlStep>)
    ensures
        step_views(r@) == xml_steps(body@),
{
    let reader = xml::reader::EventReader::new(body.as_bytes());
    reader.into_iter().map(|event| match event {
        Ok(xml::reader::XmlEvent::StartElement { name, .. }) => XmlStep::Open(name.local_name),
        Ok(xml::reader::XmlEvent::EndElement { name }) => XmlStep::Close(name.local_name),
        Ok(xml::reader::XmlEvent::Characters(text)) => XmlStep::Text(text),
        Ok(_) => XmlStep::Other,
        Err(e) => XmlStep::Failed(e.to_string()),
    }).collect()
}

/// How far a listing is read: whether a key is open, the key so far, and the objects.
pub struct Reading {
    pub open: bool,
    pub key: Option<Seq<char>>,
    pub objects: Seq<CompView>,
}

/// Reading one event. The text of a `Key` element is a key; at its end it becomes an
/// object if it names a moment.
pub open spec fn read_step(r: Reading, step: StepView) -> Reading {
    match step {
        StepView::Open(name) if name == "Key"@ => Reading {
            open: true,
            key: Some(Seq::empty()),
            ..r
        },
        StepView::Text(text) if r.open => match r.key {
            Some(k) => Reading { key: Some(k + text), ..r },
            None => r,
        },
        StepView::Close(name) if name == "Key"@ => Reading {
            open: false,
            key: None,
            objects: match r.key {
                Some(k) => match stamp_of(k) {
                    Some(stamp) => r.objects.push(CompView { key: k, stamp }),
                    None => r.objects,
                },
                None => r.objects,
            },
        },
        _ => r,
    }
}

/// Reading the events in a row, up to the first that is broken.
pub open spec fn read_steps(steps: Seq<StepView>, r: Reading) -> Result<Reading, Seq<char>>
    decreases steps.len(),
{
    if steps.len() == 0 {
        Ok(r)
    } else {
        match steps[0] {
            StepView::Failed(e) => Err(LISTING_FAILED@ + e),
            step => read_steps(steps.drop_first(), read_step(r, step)),
        }
    }
}

pub open spec fn nothing_read() -> Reading {
    Reading { open: false, key: None, objects: Seq::empty() }
}

/// Where an object goes in a list by stamp: behind all that are no later.
pub open spec fn stamp_place(objects: Seq<CompView>, stamp: i64) -> int
    decreases objects.len(),
{
    if objects.len() == 0 || objects.last().stamp <= stamp {
        objects.len() as int
    } else {
        stamp_place(objects.drop_last(), stamp)
    }
}

/// The objects from the oldest to the newest; those of one moment stay in order.
pub open spec fn by_stamp(objects: Seq<CompView>) -> Seq<CompView>
    decreases objects.len(),
{
    if objects.len() == 0 {
        Seq::empty()
    } else {
        let rest = by_stamp(objects.drop_last());
        rest.insert(stamp_place(rest, objects.last().stamp), objects.last())
    }
}

/// The objects that the events list, or why they cannot be read.
pub open spec fn objects_in(steps: Seq<StepView>) -> Result<Seq<CompView>, Seq<char>> {
    match read_steps(steps, nothing_read()) {
        Ok(r) => Ok(by_stamp(r.objects)),
        Err(e) => Err(e),
    }
}

proof fn lemma_stamp_place(objects: Seq<CompView>, stamp: i64)
    ensures
        0 <= stamp_place(objects, stamp) <= objects.len(),
        stamp_place(objects, stamp) > 0 ==> objects[stamp_place(objects, stamp) - 1].stamp <= stamp,
        forall|i: int|
            stamp_place(objects, stamp) <= i < objects.len() ==> (#[trigger] objects[i]).stamp
                > stamp,
    decreases objects.len(),
{
    if objects.len() > 0 && objects.last().stamp > stamp {
        let rest = objects.drop_last();
        lemma_stamp_place(rest, stamp);
        assert forall|i: int|
            stamp_place(objects, stamp) <= i < objects.len() implies (#[trigger] objects[i]).stamp
            > stamp by {
            if i < rest.len() {
                assert(rest[i] == objects[i]);
            }
        }
    }
}

pub open spec fn ascending_stamps(objects: Seq<CompView>) -> bool {
    forall|i: int, j: int|
        0 <= i <= j < objects.len() ==> (#[trigger] objects[i]).stamp <= (
        #[trigger] objects[j]).stamp
}

/// Sorting keeps the objects and puts the older before the newer.
pub proof fn by_stamp_sorts(objects: Seq<CompView>)
    ensures
        ascending_stamps(by_stamp(objects)),
        by_stamp(objects).to_multiset() == objects.to_multiset(),
        by_stamp(objects).len() == objects.len(),
    decreases objects.len(),
{
    broadcast use {
        vstd::seq_lib::group_to_multiset_ensures,
        vstd::multiset::group_multiset_axioms,
    };

    if objects.len() > 0 {
        let last = objects.last();
        let prior = objects.drop_last();
        let rest = by_stamp(prior);
        let all = by_stamp(objects);
        let at = stamp_place(rest, last.stamp);
        by_stamp_sorts(prior);
        lemma_stamp_place(rest, last.stamp);
        assert forall|i: int, j: int| 0 <= i <= j < all.len() implies (#[trigger] all[i]).stamp
            <= (#[trigger] all[j]).stamp by {
            if i == at {
                if j > at {
                    assert(all[j] == rest[j - 1]);
                }
            } else if j == at {
                assert(all[i] == rest[i]);
                assert(rest[i].stamp <= rest[at - 1].stamp);
            } else {
                let a = if i < at { i } else { i - 1 };
                let b = if j < at { j } else { j - 1 };
                assert(all[i] == rest[a] && all[j] == rest[b]);
            }
        }
        let (front, back) = (rest.take(at), rest.skip(at));
        assert(rest =~= front + back);
        assert(all =~= front.push(last) + back);
        vstd::seq_lib::lemma_multiset_commutative(front, back);
        vstd::seq_lib::lemma_multiset_commutative(front.push(last), back);
        assert(prior.push(last) =~= objects);
        assert(all.to_multiset() =~= objects.to_multiset());
    } else {
        assert(by_stamp(objects) =~= objects);
    }
}

/// The objects of one moment stay in order.
pub proof fn by_stamp_is_stable(objects: Seq<CompView>, stamp: i64)
    ensures
        by_stamp(objects).filter(|o: CompView| o.stamp == stamp) == objects.filter(
            |o: CompView| o.stamp == stamp,
        ),
    decreases objects.len(),
{
    let of_stamp = |o: CompView| o.stamp == stamp;
    if objects.len() > 0 {
        let last = objects.last();
        let prior = objects.drop_last();
        let rest = by_stamp(prior);
        let at = stamp_place(rest, last.stamp);
        by_stamp_is_stable(prior, stamp);
        lemma_stamp_place(rest, last.stamp);
        let (front, back) = (rest.take(at), rest.skip(at));
        assert(rest =~= front + back);
        assert(by_stamp(objects) =~= front.push(last) + back);
        Seq::filter_distributes_over_add(front, back, of_stamp);
        Seq::filter_distributes_over_add(front.push(last), back, of_stamp);
        reveal(Seq::filter);
        assert(front.push(last).drop_last() =~= front);
        if last.stamp == stamp {
            assert(back.all(|o: CompView| !of_stamp(o))) by {
                assert forall|i: int| 0 <= i < back.len() implies !of_stamp(
                    #[trigger] back[i],
                ) by {
                    assert(back[i] == rest[at + i]);
                }
            }
            back.lemma_all_neg_filter_empty(of_stamp);
            assert(back.filter(of_stamp) =~= Seq::empty());
            assert(by_stamp(objects).filter(of_stamp) =~= front.filter(of_stamp).push(last));
            assert(rest.filter(of_stamp) =~= front.filter(of_stamp));
        }
    }
}

fn sort_by_stamp(objects: &Vec<CompObject>) -> (r: Vec<CompObject>)
    ensures
        comp_views(r@) == by_stamp(comp_views(objects@)),
{
    let ghost all = comp_views(objects@);
    let mut r: Vec<CompObject> = Vec::new();
    let mut i: usize = 0;
    assert(comp_views(r@) =~= Seq::empty());
    while i < objects.len()
        invariant
            all == comp_views(objects@),
            i <= objects@.len(),
            comp_views(r@) == by_stamp(all.take(i as int)),
        decreases objects@.len() - i,
    {
        let object = &objects[i];
        let ghost sorted = comp_views(r@);
        assert(all.take(i + 1).drop_last() =~= all.take(i as int));
        assert(all.take(i + 1).last() == object@);
        let mut at: usize = r.len();
        let stamp: i64 = object.stamp.seconds();
        assert(sorted.take(at as int) =~= sorted);
        while at > 0 && r[at - 1].stamp.seconds() > stamp
            invariant
                at <= r@.len(),
                sorted == comp_views(r@),
                stamp_place(sorted, stamp) == stamp_place(sorted.take(at as int), stamp),
            decreases at,
        {
            assert(sorted.take(at as int).last() == r@[at - 1]@);
            assert(sorted.take(at as int).drop_last() =~= sorted.take(at - 1));
            at = at - 1;
        }
        proof {
            if at > 0 {
                assert(sorted.take(at as int).last() == r@[at - 1]@);
            }
        }
        r.insert(at, object.clone());
        assert(comp_views(r@) =~= sorted.insert(at as int, object@));
        i = i + 1;
    }
    assert(all.take(all.len() as int) =~= all);
    r
}

/// The objects that the events of a listing name, from the oldest to the newest.
pub fn objects_from_steps(steps: &Vec<XmlStep>) -> (r: Result<Vec<CompObject>, String>)
    ensures
        match objects_in(step_views(steps@)) {
            Ok(objects) => r matches Ok(found) && comp_views(found@) == objects,
            Err(e) => r matches Err(error) && error@ == e,
        },
{
    let ghost all = step_views(steps@);
    let mut objects: Vec<CompObject> = Vec::new();
    let mut open = false;
    let mut key: Option<String> = None;
    let mut i: usize = 0;
    let ghost mut reading = nothing_read();
    assert(all.skip(0) =~= all);
    assert(comp_views(objects@) =~= Seq::empty());
    while i < steps.len()
        invariant
            all == step_views(steps@),
            i <= steps@.len(),
            reading.open == open,
            reading.key == (match key {
                Some(k) => Some(k@),
                None => None,
            }),
            reading.objects == comp_views(objects@),
            read_steps(all, nothing_read()) == read_steps(all.skip(i as int), reading),
        decreases steps@.len() - i,
    {
        proof {
            assert(all.skip(i as int)[0] == steps@[i as int]@);
            assert(all.skip(i as int).drop_first() =~= all.skip(i + 1));
            reading = read_step(reading, steps@[i as int]@);
        }
        match &steps[i] {
            XmlStep::Failed(e) => {
                let mut error = LISTING_FAILED.to_owned();
                error.append(e.as_str());
                return Err(error);
            },
            XmlStep::Open(name) => if same_text(name.as_str(), "Key") {
                open = true;
                key = Some(String::new());
                assert(reading.key->0 =~= key->0@);
            },
            XmlStep::Text(text) => if open {
                key = match key {
                    Some(k) => {
                        let mut longer = k;
                        longer.append(text.as_str());
                        Some(longer)
                    },
                    None => None,
                };
            },
            XmlStep::Close(name) => if same_text(name.as_str(), "Key") {
                open = false;
                let ghost fewer = comp_views(objects@);
                if let Some(k) = key {
                    if let Some(stamp) = parse_dbzh_key(k.as_str()) {
                        let object = CompObject { key: k, stamp };
                        let ghost new = object@;
                        objects.push(object);
                        assert(comp_views(objects@) =~= fewer.push(new));
                    }
                }
                key = None;
            },
            XmlStep::Other => {},
        }
        i = i + 1;
    }
    Ok(sort_by_stamp(&objects))
}

/// The mosaic's objects in a listing, from the oldest to the newest. Keys that name no
/// moment are passed over.
pub fn parse_dbzh_listing(body: &str) -> (r: Result<Vec<CompObject>, String>)
    ensures
        match objects_in(xml_steps(body@)) {
            Ok(objects) => r matches Ok(found) && comp_views(found@) == objects,
            Err(e) => r matches Err(error) && error@ == e,
        },
{
    objects_from_steps(&read_xml(body))
}

/// The keys that were fetched.
#[derive(Debug)]
pub struct Known {
    keys: Vec<String>,
}

impl View for Known {
    type V = Set<Seq<char>>;

    closed spec fn view(&self) -> Set<Seq<char>> {
        views(self.keys@).to_set()
    }
}

impl Known {
    #[verifier::type_invariant]
    spec fn once_each(self) -> bool {
        views(self.keys@).no_duplicates()
    }

    pub fn new() -> (r: Known)
        ensures
            r@ == Set::<Seq<char>>::empty(),
    {
        let keys: Vec<String> = Vec::new();
        assert(views(keys@).to_set() =~= Set::empty());
        Known { keys }
    }

    pub fn only(key: String) -> (r: Known)
        ensures
            r@ == Set::<Seq<char>>::empty().insert(key@),
    {
        let ghost name = key@;
        let mut keys: Vec<String> = Vec::new();
        keys.push(key);
        assert(views(keys@) =~= seq![name]);
        assert(views(keys@).to_set() =~= Set::empty().insert(name)) by {
            assert(views(keys@)[0] == name);
        }
        Known { keys }
    }

    pub fn contains(&self, key: &str) -> (r: bool)
        ensures
            r == self@.contains(key@),
    {
        listed(&self.keys, key)
    }

    pub fn len(&self) -> (r: usize)
        ensures
            r == self@.len(),
    {
        proof {
            use_type_invariant(self);
            views(self.keys@).unique_seq_to_set();
        }
        self.keys.len()
    }

    /// The keys with one more.
    pub fn with(self, key: String) -> (r: Known)
        ensures
            r@ == self@.insert(key@),
    {
        proof {
            use_type_invariant(&self);
        }
        let ghost name = key@;
        let ghost fewer = views(self.keys@);
        if listed(&self.keys, key.as_str()) {
            assert(fewer.to_set() =~= fewer.to_set().insert(name));
            return self;
        }
        let mut keys = self.keys;
        keys.push(key);
        proof {
            let more = views(keys@);
            assert(more =~= fewer.push(name));
            assert(more.to_set() =~= fewer.to_set().insert(name)) by {
                assert forall|x: Seq<char>| more.contains(x) <==> fewer.contains(x) || x == name by {
                    if fewer.contains(x) {
                        let i = choose|i: int| 0 <= i < fewer.len() && fewer[i] == x;
                        assert(more[i] == x);
                    }
                    assert(more[fewer.len() as int] == name);
                }
            }
            assert(more.no_duplicates()) by {
                assert forall|i: int, j: int| 0 <= i < j < more.len() implies more[i] != more[j] by {
                    if j == fewer.len() {
                        assert(fewer.contains(fewer[i]));
                    }
                }
            }
        }
        Known { keys }
    }

    pub fn duplicate(&self) -> (r: Known)
        ensures
            r@ == self@,
    {
        proof {
            use_type_invariant(self);
        }
        let keys = self.keys.clone();
        assert(keys@ =~= self.keys@);
        Known { keys }
    }
}

/// The newest `limit` objects, without those that are known.
pub open spec fn targets_of(
    objects: Seq<CompView>,
    known: Set<Seq<char>>,
    limit: nat,
) -> Seq<CompView> {
    let newest = if objects.len() > limit {
        objects.skip(objects.len() - limit)
    } else {
        objects
    };
    newest.filter(|o: CompView| !known.contains(o.key))
}

/// The newest `limit` objects that are not known, the oldest first so that the
/// timeline fills in order.
pub fn backfill_targets(objects: &[CompObject], known: &Known, limit: usize) -> (r: Vec<
    CompObject,
>)
    ensures
        comp_views(r@) == targets_of(comp_views(objects@), known@, limit as nat),
{
    let start: usize = if objects.len() > limit {
        objects.len() - limit
    } else {
        0
    };
    let ghost all = comp_views(objects@);
    let ghost newest = all.skip(start as int);
    let ghost wanted = |o: CompView| !known@.contains(o.key);
    let mut r: Vec<CompObject> = Vec::new();
    let mut i: usize = start;
    proof {
        assert(start == 0 ==> newest =~= all);
        reveal(Seq::filter);
        assert(newest.take(0).filter(wanted) =~= Seq::empty());
        assert(comp_views(r@) =~= Seq::empty());
    }
    while i < objects.len()
        invariant
            start <= i <= objects@.len(),
            all == comp_views(objects@),
            newest == all.skip(start as int),
            wanted == (|o: CompView| !known@.contains(o.key)),
            comp_views(r@) == newest.take(i - start).filter(wanted),
        decreases objects@.len() - i,
    {
        let object = &objects[i];
        let ghost fewer = comp_views(r@);
        proof {
            reveal(Seq::filter);
            assert(newest.take(i + 1 - start).drop_last() =~= newest.take(i - start));
            assert(newest.take(i + 1 - start).last() == object@);
        }
        if !known.contains(object.key.as_str()) {
            r.push(object.clone());
            assert(comp_views(r@) =~= fewer.push(object@));
        }
        i = i + 1;
    }
    assert(newest.take(newest.len() as int) =~= newest);
    r
}

/// A backfill names no known object, and no more than the limit.
pub proof fn targets_are_unknown(objects: Seq<CompView>, known: Set<Seq<char>>, limit: nat)
    ensures
        targets_of(objects, known, limit).len() <= limit,
        forall|i: int|
            0 <= i < targets_of(objects, known, limit).len() ==> !known.contains(
                (#[trigger] targets_of(objects, known, limit)[i]).key,
            ) && objects.contains(targets_of(objects, known, limit)[i]),
{
    let newest = if objects.len() > limit {
        objects.skip(objects.len() - limit)
    } else {
        objects
    };
    let wanted = |o: CompView| !known.contains(o.key);
    let targets = newest.filter(wanted);
    newest.lemma_filter_len(wanted);
    assert forall|i: int| 0 <= i < targets.len() implies !known.contains(
        (#[trigger] targets[i]).key,
    ) && objects.contains(targets[i]) by {
        newest.lemma_filter_pred(wanted, i);
        assert(targets.contains(targets[i]));
        newest.lemma_filter_contains_rev(wanted, targets[i]);
        let k = choose|k: int| 0 <= k < newest.len() && newest[k] == targets[i];
        assert(objects[k + objects.len() - newest.len()] == targets[i]);
    }
}

/// What to do about a listing of today's objects.
#[derive(Debug)]
pub enum Recent {
    Ready(Result<Vec<CompObject>, String>),
    /// Today has none: list this day, and take what comes.
    AskDay(i32),
}

/// The day before, or the day itself where there is none before it.
pub open spec fn day_ahead_of(day: i32) -> int {
    if day == FIRST_DAY {
        day as int
    } else {
        day - 1
    }
}

/// Takes today's listing as it is, or asks for yesterday's where today's is empty.
pub fn list_recent(today: i32, listed: Result<Vec<CompObject>, String>) -> (r: Recent)
    requires
        is_day(today as int),
    ensures
        match listed {
            Ok(objects) => if objects@.len() == 0 {
                r matches Recent::AskDay(day) && day == day_ahead_of(today)
            } else {
                r matches Recent::Ready(Ok(same)) && same == objects
            },
            Err(e) => r matches Recent::Ready(Err(same)) && same == e,
        },
{
    match listed {
        Ok(objects) => if objects.len() == 0 {
            Recent::AskDay(
                match day_before(today) {
                    Some(day) => day,
                    None => today,
                },
            )
        } else {
            Recent::Ready(Ok(objects))
        },
        Err(e) => Recent::Ready(Err(e)),
    }
}

/// The newest object, unless it is known.
pub fn newest_unseen(objects: &Vec<CompObject>, known: &Known) -> (r: Option<CompObject>)
    ensures
        r is Some <==> objects@.len() > 0 && !known@.contains(objects@.last().key@),
        r matches Some(newest) ==> newest == objects@.last(),
{
    if objects.len() == 0 {
        return None;
    }
    let newest = &objects[objects.len() - 1];
    if known.contains(newest.key.as_str()) {
        None
    } else {
        Some(newest.clone())
    }
}

proof fn lemma_key_is_named(key: Seq<char>, text: Seq<char>)
    requires
        stamp_text(key) == Some(text),
    ensures
        after_last(key, '/') == "OPERA@"@ + text + "@0@DBZH.tiff"@,
        !text.contains('/'),
{
    let front = "OPERA@"@;
    let back = "@0@DBZH.tiff"@;
    let end = after_last(key, '/');
    let rest = behind(end, front)->0;
    text_behind_the_last_is_its_end(key, '/');
    stripping_takes_off_an_end(end, front, rest);
    stripping_takes_off_an_end(rest, back, text);
    let name = front + text + back;
    assert(end =~= name);
    if text.contains('/') {
        let i = choose|i: int| 0 <= i < text.len() && text[i] == '/';
        assert(name[front.len() + i] == '/');
        assert(end.contains('/'));
    }
}

proof fn lemma_bare_key(text: Seq<char>)
    requires
        !text.contains('/'),
    ensures
        stamp_text("OPERA@"@ + text + "@0@DBZH.tiff"@) == Some(text),
{
    let front = "OPERA@"@;
    let back = "@0@DBZH.tiff"@;
    let name = front + text + back;
    let none = Seq::<char>::empty();
    key_names_its_stamp(none, text);
    text_behind_the_last_is_its_end(none.push('/') + name, '/');
    lemma_key_is_named(none.push('/') + name, text);
    after_last_drops_the_front(none, name, '/');
}

/// A key names a moment's text exactly where it is `OPERA@`, the text and `@0@DBZH.tiff`,
/// behind a folder or not, and the text has no slash.
pub proof fn key_has_its_shape(key: Seq<char>, text: Seq<char>, folder: Seq<char>)
    requires
        folder.len() > 0 ==> folder.last() == '/',
    ensures
        stamp_text(key) == Some(text) ==> {
            let name = "OPERA@"@ + text + "@0@DBZH.tiff"@;
            &&& name.len() <= key.len()
            &&& key.skip(key.len() - name.len()) == name
            &&& name.len() < key.len() ==> key[key.len() - name.len() - 1] == '/'
            &&& !text.contains('/')
        },
        !text.contains('/') && key == folder + ("OPERA@"@ + text + "@0@DBZH.tiff"@) ==> stamp_text(
            key,
        ) == Some(text),
{
    let name = "OPERA@"@ + text + "@0@DBZH.tiff"@;
    if stamp_text(key) == Some(text) {
        lemma_key_is_named(key, text);
        text_behind_the_last_is_its_end(key, '/');
    }
    if !text.contains('/') && key == folder + name {
        if folder.len() > 0 {
            key_names_its_stamp(folder.drop_last(), text);
            assert(folder.drop_last().push('/') =~= folder);
        } else {
            lemma_bare_key(text);
            assert(key =~= name);
        }
    }
}

/// The moment of a key is what its text reads as, with year, month, day, hour and minute;
/// the objects of a day stand under its year, month and day; and the day ahead of a day is
/// the one before it.
pub proof fn keys_and_folders_go_by_the_calendar(key: Seq<char>, day: i32)
    ensures
        stamp_text(key) is None ==> stamp_of(key) is None,
        stamp_text(key) matches Some(text) ==> stamp_of(key) == moment_of(text, "%Y%m%dT%H%M"@),
        prefix_of(day) == day_text(day, "%Y/%m/%d"@) + "/OPERA/COMP/"@,
        day > -95_746_129 ==> day_ahead_of(day) == day - 1,
        day == -95_746_129 ==> day_ahead_of(day) == day,
{
}

proof fn lemma_read_more(a: Seq<StepView>, b: Seq<StepView>, r: Reading)
    ensures
        read_steps(a, r) matches Ok(s) ==> read_steps(a + b, r) == read_steps(b, s),
        read_steps(a, r) is Err ==> read_steps(a + b, r) == read_steps(a, r),
    decreases a.len(),
{
    if a.len() == 0 {
        assert(a + b =~= b);
    } else {
        assert((a + b).drop_first() =~= a.drop_first() + b);
        assert((a + b)[0] == a[0]);
        if !(a[0] is Failed) {
            lemma_read_more(a.drop_first(), b, read_step(r, a[0]));
        }
    }
}

proof fn lemma_read_one(a: Seq<StepView>, step: StepView)
    requires
        read_steps(a, nothing_read()) is Ok,
        !(step is Failed),
    ensures
        read_steps(a.push(step), nothing_read()) == Ok::<Reading, Seq<char>>(
            read_step(read_steps(a, nothing_read())->Ok_0, step),
        ),
{
    let one = seq![step];
    let r = read_steps(a, nothing_read())->Ok_0;
    lemma_read_more(a, one, nothing_read());
    assert(a.push(step) =~= a + one);
    assert(one[0] == step);
    assert(one.drop_first().len() == 0);
    reveal_with_fuel(read_steps, 2);
    assert(read_steps(one, r) == read_steps(one.drop_first(), read_step(r, step)));
}

/// What reading an element `Key` with a text leaves.
proof fn lemma_read_key(steps: Seq<StepView>, key: Seq<char>)
    requires
        read_steps(steps, nothing_read()) is Ok,
    ensures
        ({
            let r = read_steps(steps, nothing_read())->Ok_0;
            read_steps(
                steps.push(StepView::Open("Key"@)).push(StepView::Text(key)).push(
                    StepView::Close("Key"@),
                ),
                nothing_read(),
            ) == Ok::<Reading, Seq<char>>(
                Reading {
                    open: false,
                    key: None,
                    objects: match stamp_of(key) {
                        Some(stamp) => r.objects.push(CompView { key, stamp }),
                        None => r.objects,
                    },
                },
            )
        }),
{
    let r = read_steps(steps, nothing_read())->Ok_0;
    let open = steps.push(StepView::Open("Key"@));
    let text = open.push(StepView::Text(key));
    lemma_read_one(steps, StepView::Open("Key"@));
    lemma_read_one(open, StepView::Text(key));
    lemma_read_one(text, StepView::Close("Key"@));
    assert(Seq::<char>::empty() + key =~= key);
}

/// A listing grows by one object with each element `Key` whose text names a moment, and
/// its objects stay in the order of their moments.
pub proof fn each_key_is_an_object(steps: Seq<StepView>, key: Seq<char>, stamp: i64)
    requires
        objects_in(steps) is Ok,
        stamp_of(key) == Some(stamp),
    ensures
        ({
            let more = steps.push(StepView::Open("Key"@)).push(StepView::Text(key)).push(
                StepView::Close("Key"@),
            );
            &&& objects_in(more) is Ok
            &&& objects_in(more)->Ok_0.to_multiset() == objects_in(steps)->Ok_0.to_multiset().insert(
                CompView { key, stamp },
            )
            &&& forall|i: int, j: int|
                0 <= i < j < objects_in(more)->Ok_0.len() ==> (
                #[trigger] objects_in(more)->Ok_0[i]).stamp <= (
                #[trigger] objects_in(more)->Ok_0[j]).stamp
        }),
{
    broadcast use vstd::seq_lib::group_to_multiset_ensures;

    let before = read_steps(steps, nothing_read())->Ok_0;
    lemma_read_key(steps, key);
    let after = before.objects.push(CompView { key, stamp });
    by_stamp_sorts(before.objects);
    by_stamp_sorts(after);
    assert(after.to_multiset() =~= before.objects.to_multiset().insert(CompView { key, stamp }));
}

/// An element `Key` whose text names no moment adds nothing to a listing, nor does a
/// text, the start of an element, the end of another one, or anything else.
pub proof fn nothing_else_is_an_object(steps: Seq<StepView>, key: Seq<char>, step: StepView)
    requires
        objects_in(steps) is Ok,
        step is Other || step is Open || step is Text || step is Close && step->Close_0 != "Key"@,
    ensures
        objects_in(steps.push(step)) == objects_in(steps),
        stamp_of(key) is None ==> objects_in(
            steps.push(StepView::Open("Key"@)).push(StepView::Text(key)).push(
                StepView::Close("Key"@),
            ),
        ) == objects_in(steps),
{
    lemma_read_one(steps, step);
    lemma_read_key(steps, key);
}

/// The text of a key may come in pieces.
pub proof fn key_may_come_in_pieces(steps: Seq<StepView>, key: Seq<char>, more: Seq<char>)
    requires
        objects_in(steps) is Ok,
    ensures
        objects_in(
            steps.push(StepView::Open("Key"@)).push(StepView::Text(key)).push(
                StepView::Text(more),
            ).push(StepView::Close("Key"@)),
        ) == objects_in(
            steps.push(StepView::Open("Key"@)).push(StepView::Text(key + more)).push(
                StepView::Close("Key"@),
            ),
        ),
{
    let open = steps.push(StepView::Open("Key"@));
    let text = open.push(StepView::Text(key));
    lemma_read_one(steps, StepView::Open("Key"@));
    lemma_read_one(open, StepView::Text(key));
    lemma_read_one(text, StepView::Text(more));
    lemma_read_one(text.push(StepView::Text(more)), StepView::Close("Key"@));
    lemma_read_key(steps, key + more);
    assert(Seq::<char>::empty() + key + more =~= key + more);
}

/// A document that is broken at some place gives no listing, whatever follows, but the
/// first error; an empty one gives an empty listing.
pub proof fn broken_listing_is_an_error(steps: Seq<StepView>, e: Seq<char>, rest: Seq<StepView>)
    requires
        objects_in(steps) is Ok,
    ensures
        objects_in(steps.push(StepView::Failed(e)) + rest) == Err::<Seq<CompView>, Seq<char>>(
            "reading OPERA listing: "@ + e,
        ),
        objects_in(Seq::empty()) == Ok::<Seq<CompView>, Seq<char>>(Seq::empty()),
{
    let tail = seq![StepView::Failed(e)] + rest;
    lemma_read_more(steps, tail, nothing_read());
    assert(steps.push(StepView::Failed(e)) + rest =~= steps + tail);
    assert(tail[0] == StepView::Failed(e));
    assert(by_stamp(nothing_read().objects) =~= Seq::empty());
}

/// A backfill looks at the newest objects up to the limit, passes over those whose keys are
/// known and keeps the others in order: one more object at the end is one more target
/// unless it is known, and one in front beyond the limit changes nothing.
pub proof fn backfill_takes_the_newest_in_order(
    objects: Seq<CompView>,
    o: CompView,
    known: Set<Seq<char>>,
    limit: nat,
)
    ensures
        objects.len() < limit ==> targets_of(objects.push(o), known, limit) == (if known.contains(
            o.key,
        ) {
            targets_of(objects, known, limit)
        } else {
            targets_of(objects, known, limit).push(o)
        }),
        objects.len() >= limit ==> targets_of(seq![o] + objects, known, limit) == targets_of(
            objects,
            known,
            limit,
        ),
        targets_of(Seq::empty(), known, limit).len() == 0,
{
    let wanted = |x: CompView| !known.contains(x.key);
    reveal(Seq::filter);
    if objects.len() < limit {
        assert(objects.push(o).drop_last() =~= objects);
        assert(objects.push(o).last() == o);
    } else {
        let all = seq![o] + objects;
        assert(all.skip(all.len() - limit) =~= objects.skip(objects.len() - limit));
        assert(objects.skip(0) =~= objects);
    }
}

/// What comes out of sorting is in the order of the moments, with all objects and no
/// others; those of one moment keep their order.
pub proof fn listing_is_in_order(objects: Seq<CompView>, stamp: i64)
    ensures
        forall|i: int, j: int|
            0 <= i < j < by_stamp(objects).len() ==> (#[trigger] by_stamp(objects)[i]).stamp <= (
            #[trigger] by_stamp(objects)[j]).stamp,
        by_stamp(objects).to_multiset() == objects.to_multiset(),
        by_stamp(objects).filter(|o: CompView| o.stamp == stamp) == objects.filter(
            |o: CompView| o.stamp == stamp,
        ),
{
    by_stamp_sorts(objects);
    by_stamp_is_stable(objects, stamp);
}

/// The objects are kept at one host.
pub proof fn objects_are_kept_at_one_host()
    ensures
        HOST@ == "https://s3.waw3-1.cloudferro.com/openradar-24h"@,
{
}

/// An object is seen as its key and its moment, and a list of objects one by one.
pub proof fn objects_are_seen_by_key_and_moment(o: CompObject, list: Seq<CompObject>)
    ensures
        o@.key == o.key@,
        o@.stamp == o.stamp.secs(),
        comp_views(list).len() == list.len(),
        forall|i: int| 0 <= i < list.len() ==> #[trigger] comp_views(list)[i] == list[i]@,
{
}

} // verus!
