//! Features are the basic building block of maps and describe all visible
//! and invisible objects. A line or polygon feature is painted as an SVG
//! path.

use vstd::prelude::*;
use vstd::utf8::encode_utf8;

use crate::cursor::{
    start_state,
    items,
    items_from,
    lemma_error_is_last,
    lemma_items_unfold,
    lemma_step_decreases,
    points,
    points_of,
    remaining,
    Command,
    Cursor,
};
use crate::error::Error;
use crate::storage::Rank;
use crate::tag::{int_of, str_of, truthy, u16_of, TagMap, Value};
use crate::text::{byte_len, decimal, decimal_text, lemma_encode_concat, saturating};

verus! {

/// The kind of geometry a feature carries.
#[derive(Debug, Clone, Copy, PartialEq, Eq, Structural)]
pub enum GeomType {
    Unknown,
    Point,
    LineString,
    Polygon,
}

/// A feature as it stands in a layer: its kind of geometry, the geometry's
/// command words, and its tags as pairs of dictionary indices.
#[derive(Debug)]
pub struct TileFeature {
    pub id: Option<u64>,
    pub tags: Vec<u32>,
    pub geom_type: GeomType,
    pub geometry: Vec<u32>,
}

/// The rank of features without a usable `sort_rank` tag: they are usually
/// labels and are drawn above all other content.
pub const DEFAULT_SORT_RANK: u16 = 500;

/// The integer value of a tag, if it has one.
pub open spec fn tag_int(tags: Map<Seq<char>, Value>, key: Seq<char>) -> Option<i64> {
    if tags.contains_key(key) {
        int_of(tags[key])
    } else {
        None
    }
}

/// The text of a string tag, if it has one.
pub open spec fn tag_str(tags: Map<Seq<char>, Value>, key: Seq<char>) -> Option<Seq<char>> {
    if tags.contains_key(key) {
        str_of(tags[key])
    } else {
        None
    }
}

/// Whether a tag is present and "trueish".
pub open spec fn tag_flag(tags: Map<Seq<char>, Value>, key: Seq<char>) -> bool {
    tags.contains_key(key) && truthy(tags[key])
}

/// The rank a feature with these tags is drawn at.
pub open spec fn sort_rank_of(tags: Map<Seq<char>, Value>) -> u16 {
    if tags.contains_key("sort_rank"@) && u16_of(tags["sort_rank"@]) is Some {
        u16_of(tags["sort_rank"@])->0
    } else {
        DEFAULT_SORT_RANK
    }
}

/// `text` when `on`, else nothing.
pub open spec fn when(on: bool, text: Seq<char>) -> Seq<char> {
    if on {
        text
    } else {
        Seq::empty()
    }
}

/// The attributes of a path before its data:
/// ` class="layer-{layer} kind-{kind}[ boundary][ is_tunnel][ is_bridge] min-zoom-{min_zoom}"[ data-id="{id}"]`.
pub open spec fn metadata_text(
    layer: Seq<char>,
    kind: Seq<char>,
    tags: Map<Seq<char>, Value>,
    min_zoom: Seq<char>,
    id: Option<i64>,
) -> Seq<char> {
    " class=\"layer-"@ + layer + " kind-"@ + kind + when(
        tag_flag(tags, "boundary"@),
        " boundary"@,
    ) + when(tag_flag(tags, "is_tunnel"@), " is_tunnel"@) + when(
        tag_flag(tags, "is_bridge"@),
        " is_bridge"@,
    ) + " min-zoom-"@ + min_zoom + "\""@ + match id {
        Some(i) => " data-id=\""@ + decimal(i as int) + "\""@,
        None => Seq::empty(),
    }
}

/// The path data for decoder items, with the texts of the points' scaled
/// coordinates in `coords`, in order; and the error that stops it, if any.
///
/// MoveTo is `M x y `, LineTo is `L x y `, ClosePath is `Z ` where closing is
/// allowed and an `IllegalClosePath` error elsewhere.
pub open spec fn path_text(
    its: Seq<Result<Command, Error>>,
    coords: Seq<(String, String)>,
    closable: bool,
) -> (Seq<char>, Option<Error>)
    decreases its.len(),
{
    if its.len() == 0 {
        (Seq::empty(), None)
    } else {
        match its[0] {
            Err(e) => (Seq::empty(), Some(e)),
            Ok(Command::ClosePath) => if closable {
                let (t, e) = path_text(its.drop_first(), coords, closable);
                ("Z "@ + t, e)
            } else {
                (Seq::empty(), Some(Error::IllegalClosePath))
            },
            Ok(Command::MoveTo(_, _)) => {
                let (t, e) = path_text(its.drop_first(), coords.drop_first(), closable);
                ("M "@ + coords[0].0@ + " "@ + coords[0].1@ + " "@ + t, e)
            },
            Ok(Command::LineTo(_, _)) => {
                let (t, e) = path_text(its.drop_first(), coords.drop_first(), closable);
                ("L "@ + coords[0].0@ + " "@ + coords[0].1@ + " "@ + t, e)
            },
        }
    }
}

/// Path data and points of one decoder item followed by more.
proof fn lemma_path_unfold(
    it: Result<Command, Error>,
    tail: Seq<Result<Command, Error>>,
    cs: Seq<(String, String)>,
    closable: bool,
)
    ensures
        ({
            let rest = seq![it] + tail;
            let (t, e) = path_text(tail, cs, closable);
            let (tp, ep) = path_text(tail, cs.drop_first(), closable);
            &&& match it {
                Ok(Command::MoveTo(_, _)) => points_of(rest).len() == points_of(tail).len() + 1,
                Ok(Command::LineTo(_, _)) => points_of(rest).len() == points_of(tail).len() + 1,
                _ => points_of(rest) == points_of(tail),
            }
            &&& path_text(rest, cs, closable) == match it {
                Err(e) => (Seq::empty(), Some(e)),
                Ok(Command::ClosePath) => if closable {
                    ("Z "@ + t, e)
                } else {
                    (Seq::<char>::empty(), Some(Error::IllegalClosePath))
                },
                Ok(Command::MoveTo(_, _)) => ("M "@ + cs[0].0@ + " "@ + cs[0].1@ + " "@ + tp, ep),
                Ok(Command::LineTo(_, _)) => ("L "@ + cs[0].0@ + " "@ + cs[0].1@ + " "@ + tp, ep),
            }
        }),
{
    assert((seq![it] + tail).drop_first() =~= tail);
    assert((seq![it] + tail)[0] == it);
}

/// Where no error comes before a ClosePath, the path data of a shape that
/// may not close fails with `IllegalClosePath`.
proof fn lemma_close_path_refused(its: Seq<Result<Command, Error>>, cs: Seq<(String, String)>, j: int)
    requires
        0 <= j < its.len(),
        its[j] == Ok::<Command, Error>(Command::ClosePath),
        forall|i: int| 0 <= i < j ==> #[trigger] its[i] is Ok,
    ensures
        path_text(its, cs, false).1 == Some(Error::IllegalClosePath),
    decreases j,
{
    if j > 0 {
        let tail = its.drop_first();
        assert forall|i: int| 0 <= i < j - 1 implies #[trigger] tail[i] is Ok by {
            assert(tail[i] == its[i + 1]);
        }
        assert(its[0] is Ok);
        lemma_close_path_refused(tail, cs, j - 1);
        lemma_close_path_refused(tail, cs.drop_first(), j - 1);
    }
}

/// A line string whose geometry decodes to a ClosePath command cannot be
/// painted: painting fails with `IllegalClosePath` (given the `kind` tag
/// that painting asks for first).
pub proof fn lemma_line_string_refuses_close_path(
    layer: Seq<char>,
    tags: Map<Seq<char>, Value>,
    geometry: Seq<u32>,
    coords: Seq<(String, String)>,
    min_zoom: Seq<char>,
    j: int,
)
    requires
        tag_str(tags, "kind"@) is Some,
        0 <= j < items(geometry).len(),
        items(geometry)[j] == Ok::<Command, Error>(Command::ClosePath),
    ensures
        painted(GeomType::LineString, layer, tags, geometry, coords, min_zoom).1 == Err::<(), Error>(
            Error::IllegalClosePath,
        ),
{
    lemma_error_is_last(geometry, start_state());
    let its = items(geometry);
    assert forall|i: int| 0 <= i < j implies #[trigger] its[i] is Ok by {
        assert(i < its.len() - 1);
    }
    lemma_close_path_refused(its, coords, j);
}

/// A polygon tagged only with a string `kind`, whose geometry decodes to a
/// MoveTo, a LineTo and a ClosePath, is painted as one closed path: its class
/// names the kind, and its data moves to the first point, draws a line to
/// the second and closes, with the coordinate texts given for the points.
pub proof fn lemma_polygon_paints_closed_path(
    layer: Seq<char>,
    kind: String,
    geometry: Seq<u32>,
    coords: Seq<(String, String)>,
    min_zoom: Seq<char>,
    a: (i32, i32),
    b: (i32, i32),
)
    requires
        coords.len() == 2,
        items(geometry) == seq![
            Ok::<Command, Error>(Command::MoveTo(a.0, a.1)),
            Ok::<Command, Error>(Command::LineTo(b.0, b.1)),
            Ok::<Command, Error>(Command::ClosePath),
        ],
    ensures
        painted(
            GeomType::Polygon,
            layer,
            Map::<Seq<char>, Value>::empty().insert("kind"@, Value::String(kind)),
            geometry,
            coords,
            min_zoom,
        ) == (
            "<path"@ + (" class=\"layer-"@ + layer + " kind-"@ + kind@ + " min-zoom-"@ + min_zoom
                + "\""@) + " d=\""@ + ("M "@ + coords[0].0@ + " "@ + coords[0].1@ + " "@ + (
            "L "@ + coords[1].0@ + " "@ + coords[1].1@ + " "@ + ("Z "@ + Seq::<char>::empty())))
                + "\"></path>\n"@,
            Ok::<(), Error>(()),
        ),
{
    let tags = Map::<Seq<char>, Value>::empty().insert("kind"@, Value::String(kind));
    reveal_strlit("kind");
    reveal_strlit("id");
    reveal_strlit("boundary");
    reveal_strlit("is_tunnel");
    reveal_strlit("is_bridge");
    assert("id"@.len() != "kind"@.len());
    assert(!tags.contains_key("id"@));
    assert("boundary"@.len() != "kind"@.len());
    assert(!tags.contains_key("boundary"@));
    assert("is_tunnel"@.len() != "kind"@.len());
    assert(!tags.contains_key("is_tunnel"@));
    assert("is_bridge"@.len() != "kind"@.len());
    assert(!tags.contains_key("is_bridge"@));
    let its = items(geometry);
    let t1 = its.drop_first();
    let t2 = t1.drop_first();
    let t3 = t2.drop_first();
    assert(t3.len() == 0);
    assert(t2 =~= seq![Ok::<Command, Error>(Command::ClosePath)]);
    let c1 = coords.drop_first();
    assert(path_text(t3, c1.drop_first(), true) == (Seq::<char>::empty(), None::<Error>));
    assert(path_text(t2, c1.drop_first(), true) == ("Z "@ + Seq::<char>::empty(), None::<Error>));
    assert(path_text(t1, c1, true).1 is None);
    assert(path_text(its, coords, true).1 is None);
    let meta = metadata_text(layer, kind@, tags, min_zoom, tag_int(tags, "id"@));
    assert(meta =~= " class=\"layer-"@ + layer + " kind-"@ + kind@ + " min-zoom-"@ + min_zoom
        + "\""@);
}

/// What painting a feature appends to its rank, and its outcome.
///
/// Points and unknown geometries paint nothing. A line or polygon needs a
/// string `kind` tag; it is painted as
/// `<path{metadata} d="{path data}"></path>` and a newline. On an error the
/// text written before it stays.
pub open spec fn painted(
    geom_type: GeomType,
    layer: Seq<char>,
    tags: Map<Seq<char>, Value>,
    geometry: Seq<u32>,
    coords: Seq<(String, String)>,
    min_zoom: Seq<char>,
) -> (Seq<char>, Result<(), Error>) {
    if geom_type == GeomType::LineString || geom_type == GeomType::Polygon {
        match tag_str(tags, "kind"@) {
            None => ("<path"@, Err(Error::MissingRequiredTag)),
            Some(kind) => {
                let head = "<path"@ + metadata_text(layer, kind, tags, min_zoom, tag_int(tags, "id"@))
                    + " d=\""@;
                let (body, err) = path_text(
                    items(geometry),
                    coords,
                    geom_type == GeomType::Polygon,
                );
                match err {
                    Some(e) => (head + body, Err(e)),
                    None => (head + body + "\"></path>\n"@, Ok(())),
                }
            },
        }
    } else {
        (Seq::empty(), Ok(()))
    }
}

/// A feature consists of a geometry and tagging.
///
/// Additionally it knows its layer and the rank it is drawn at.
pub struct Feature<'a> {
    id: Option<i64>,
    geom_type: GeomType,
    tags: TagMap,
    geometry: &'a [u32],
    layer: &'a str,
    /// The rank this feature should be drawn at.
    pub sort_rank: u16,
}

impl<'a> Feature<'a> {
    pub closed spec fn geom_type(&self) -> GeomType {
        self.geom_type
    }

    pub closed spec fn tags(&self) -> Map<Seq<char>, Value> {
        self.tags@
    }

    pub closed spec fn geometry(&self) -> Seq<u32> {
        self.geometry@
    }

    pub closed spec fn layer(&self) -> Seq<char> {
        self.layer@
    }

    pub closed spec fn rank(&self) -> u16 {
        self.sort_rank
    }

    pub closed spec fn id(&self) -> Option<i64> {
        self.id
    }

    /// The tag map is well formed and the id is the one the tags give.
    pub closed spec fn wf(&self) -> bool {
        self.tags.wf() && self.id == tag_int(self.tags@, "id"@)
    }

    /// Creates a new feature from its raw form and its decoded tags.
    ///
    /// The id comes from the `id` tag, the sort rank from the `sort_rank`
    /// tag (truncated to 16 bits).
    pub fn new(raw_feature: &'a TileFeature, tags: TagMap, layer: &'a str) -> (f: Feature<'a>)
        requires
            tags.wf(),
        ensures
            f.wf(),
            f.geom_type() == raw_feature.geom_type,
            f.tags() == tags@,
            f.geometry() == raw_feature.geometry@,
            f.layer() == layer@,
            f.id() == tag_int(tags@, "id"@),
            f.rank() == sort_rank_of(tags@),
    {
        let id = match tags.get("id") {
            Some(v) => v.i64(),
            None => None,
        };
        let sort_rank = match tags.get("sort_rank") {
            Some(v) => match v.u16() {
                Some(r) => r,
                None => DEFAULT_SORT_RANK,
            },
            None => DEFAULT_SORT_RANK,
        };
        Feature {
            id,
            geom_type: raw_feature.geom_type,
            tags,
            geometry: raw_feature.geometry.as_slice(),
            layer,
            sort_rank,
        }
    }

    /// Appends the path data of the geometry to `out`; returns the error
    /// that stopped it, if any.
    fn paint_description(&self, out: &mut String, coords: &Vec<(String, String)>, closable: bool)
        -> (e: Option<Error>)
        requires
            coords@.len() == points_of(items(self.geometry())).len(),
        ensures
            final(out)@ == old(out)@ + path_text(items(self.geometry()), coords@, closable).0,
            e == path_text(items(self.geometry()), coords@, closable).1,
    {
        let ghost w = self.geometry@;
        let ghost full = path_text(items(w), coords@, closable);
        let ghost start = out@;
        let ghost mut written: Seq<char> = Seq::empty();
        let mut c = Cursor::new(self.geometry);
        let mut k: usize = 0;
        let n = coords.len();
        proof {
            assert(coords@.skip(0) =~= coords@);
            assert(points_of(items(w)) =~= Seq::<(i32, i32)>::empty() + points_of(items_from(w, c.state())));
        }
        loop
            invariant
                w == self.geometry(),
                n == coords@.len(),
                start == old(out)@,
                full == path_text(items(w), coords@, closable),
                c.words() == w,
                k <= coords@.len(),
                points_of(items_from(w, c.state())).len() + k == coords@.len(),
                out@ == start + written,
                full.0 == written + path_text(items_from(w, c.state()), coords@.skip(k as int), closable).0,
                full.1 == path_text(items_from(w, c.state()), coords@.skip(k as int), closable).1,
            decreases remaining(w, c.state()),
        {
            let ghost st = c.state();
            let ghost rest = items_from(w, st);
            let ghost cs = coords@.skip(k as int);
            proof {
                lemma_items_unfold(w, st);
                lemma_step_decreases(w, st);
            }
            match c.next() {
                None => {
                    assert(written + Seq::<char>::empty() =~= written);
                    return None;
                },
                Some(it) => {
                    let ghost tail = items_from(w, c.state());
                    proof {
                        lemma_path_unfold(it, tail, cs, closable);
                    }
                    assert(rest == seq![it] + tail);
                    match it {
                        Err(e) => {
                            assert(written + Seq::<char>::empty() =~= written);
                            return Some(e);
                        },
                        Ok(Command::ClosePath) => {
                            if !closable {
                                assert(written + Seq::<char>::empty() =~= written);
                                return Some(Error::IllegalClosePath);
                            }
                            out.append("Z ");
                            proof {
                                let t = path_text(tail, cs, closable).0;
                                assert(written + ("Z "@ + t) =~= (written + "Z "@) + t);
                                written = written + "Z "@;
                            }
                        },
                        Ok(Command::MoveTo(_, _)) | Ok(Command::LineTo(_, _)) => {
                            let lead = if let Ok(Command::MoveTo(_, _)) = it {
                                "M "
                            } else {
                                "L "
                            };
                            assert(cs[0] == coords@[k as int]);
                            out.append(lead);
                            out.append(coords[k].0.as_str());
                            out.append(" ");
                            out.append(coords[k].1.as_str());
                            out.append(" ");
                            proof {
                                let piece = lead@ + coords@[k as int].0@ + " "@ + coords@[k as int].1@
                                    + " "@;
                                let t = path_text(tail, cs.drop_first(), closable).0;
                                assert(cs.drop_first() =~= coords@.skip(k + 1));
                                assert(written + (piece + t) =~= (written + piece) + t);
                                assert(out@ =~= start + (written + piece));
                                written = written + piece;
                            }
                            k = k + 1;
                        },
                    }
                },
            }
        }
    }

    /// Whether the tag `key` is present and "trueish".
    fn flag(&self, key: &str) -> (r: bool)
        requires
            self.wf(),
        ensures
            r == tag_flag(self.tags(), key@),
    {
        match self.tags.get(key) {
            Some(v) => v.yes(),
            None => false,
        }
    }

    /// The attributes of the path before its data.
    fn paint_metadata(&self, kind: &str, min_zoom: &str) -> (s: String)
        requires
            self.wf(),
        ensures
            s@ == metadata_text(self.layer(), kind@, self.tags(), min_zoom@, self.id()),
    {
        let mut s = String::new();
        s.append(" class=\"layer-");
        s.append(self.layer);
        s.append(" kind-");
        s.append(kind);
        let ghost a = s@;
        if self.flag("boundary") {
            s.append(" boundary");
        }
        let ghost b = s@;
        if self.flag("is_tunnel") {
            s.append(" is_tunnel");
        }
        let ghost c = s@;
        if self.flag("is_bridge") {
            s.append(" is_bridge");
        }
        let ghost d = s@;
        s.append(" min-zoom-");
        s.append(min_zoom);
        s.append("\"");
        let ghost e = s@;
        match self.id {
            Some(id) => {
                s.append(" data-id=\"");
                let t = decimal_text(id);
                s.append(t.as_str());
                s.append("\"");
            },
            None => {},
        }
        proof {
            assert(b =~= a + when(tag_flag(self.tags(), "boundary"@), " boundary"@));
            assert(c =~= b + when(tag_flag(self.tags(), "is_tunnel"@), " is_tunnel"@));
            assert(d =~= c + when(tag_flag(self.tags(), "is_bridge"@), " is_bridge"@));
            assert(s@ =~= metadata_text(self.layer(), kind@, self.tags(), min_zoom@, self.id()));
        }
        s
    }

    /// Paints the feature as an SVG fragment into `rank`.
    ///
    /// `coords` holds the texts of the scaled coordinates of the points that
    /// `points` lists, in the same order; `min_zoom` is the text of the
    /// feature's minimal zoom level.
    pub fn paint(&self, rank: &mut Rank, coords: &Vec<(String, String)>, min_zoom: &str) -> (r:
        Result<(), Error>)
        requires
            self.wf(),
            old(rank).wf(),
            coords@.len() == points_of(items(self.geometry())).len(),
        ensures
            ({
                let (text, outcome) = painted(
                    self.geom_type(),
                    self.layer(),
                    self.tags(),
                    self.geometry(),
                    coords@,
                    min_zoom@,
                );
                &&& r == outcome
                &&& final(rank).wf()
                &&& final(rank).rank() == old(rank).rank()
                &&& final(rank).storage()@ == old(rank).storage()@.insert(
                    old(rank).rank(),
                    old(rank).storage()@[old(rank).rank()] + text,
                )
                &&& final(rank).storage().size() == saturating(
                    old(rank).storage().size() + byte_len(text),
                )
            }),
            *final(final(rank).target()) == *final(old(rank).target()),
    {
        match self.geom_type {
            GeomType::LineString | GeomType::Polygon => {
                let ghost r0 = rank.storage()@;
                let ghost at = rank.rank();
                rank.push_str("<path");
                let kind = match self.tags.get("kind") {
                    Some(v) => match v.str() {
                        Some(k) => k,
                        None => {
                            return Err(Error::MissingRequiredTag);
                        },
                    },
                    None => {
                        return Err(Error::MissingRequiredTag);
                    },
                };
                let closable = self.geom_type == GeomType::Polygon;
                let mut out = self.paint_metadata(kind, min_zoom);
                out.append(" d=\"");
                let ghost head = "<path"@ + out@;
                let failed = self.paint_description(&mut out, coords, closable);
                let result = match failed {
                    Some(e) => Err(e),
                    None => {
                        out.append("\"></path>\n");
                        Ok(())
                    },
                };
                let ghost r1 = rank.storage()@;
                rank.push_str(out.as_str());
                proof {
                    assert(r1 == r0.insert(at, r0[at] + "<path"@));
                    assert(r0[at] + "<path"@ + out@ =~= r0[at] + ("<path"@ + out@));
                    assert(rank.storage()@ =~= r0.insert(at, r0[at] + ("<path"@ + out@)));
                    let (body, err) = path_text(items(self.geometry()), coords@, closable);
                    assert(head =~= "<path"@ + metadata_text(
                        self.layer(),
                        kind@,
                        self.tags(),
                        min_zoom@,
                        tag_int(self.tags(), "id"@),
                    ) + " d=\""@);
                    if err is None {
                        assert("<path"@ + out@ =~= head + body + "\"></path>\n"@);
                    } else {
                        assert("<path"@ + out@ =~= head + body);
                    }
                    lemma_encode_concat("<path"@, out@);
                }
                result
            },
            _ => {
                assert(encode_utf8(Seq::<char>::empty()).len() == 0);
                assert(old(rank).storage()@[old(rank).rank()] + Seq::<char>::empty() =~= old(
                    rank,
                ).storage()@[old(rank).rank()]);
                assert(old(rank).storage()@.insert(
                    old(rank).rank(),
                    old(rank).storage()@[old(rank).rank()],
                ) =~= old(rank).storage()@);
                Ok(())
            },
        }
    }

    /// The rank this feature should be drawn at.
    pub fn sort_rank(&self) -> (r: u16)
        ensures
            r == self.rank(),
    {
        self.sort_rank
    }

    /// The absolute positions of the feature's MoveTo and LineTo commands,
    /// in order: the points whose scaled coordinates painting needs.
    pub fn points(&self) -> (r: Vec<(i32, i32)>)
        ensures
            r@ == points_of(items(self.geometry())),
    {
        points(self.geometry)
    }
}

} // verus!
