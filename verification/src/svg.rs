//! SVG interpretation: colors, presentation attributes (direct, from `style`, inherited),
//! the shapes an SVG document draws, the view box, and path data split into tokens and
//! drawing commands.
use vstd::prelude::*;
use crate::Color;
use crate::pdf::writer::bytes_of;
use crate::strings::{alphabetic, chars_of, is_alphabetic, is_whitespace, string_from_chars, trim, trimmed, white_space};

verus! {

/// The value of an ASCII hexadecimal digit.
pub open spec fn hex_digit_value(c: u8) -> Option<nat> {
    if 48 <= c <= 57 {
        Some((c - 48) as nat)
    } else if 97 <= c <= 102 {
        Some((c - 87) as nat)
    } else if 65 <= c <= 70 {
        Some((c - 55) as nat)
    } else {
        None
    }
}

/// The value of a run of hexadecimal digits.
pub open spec fn hex_digits_value(b: Seq<u8>) -> Option<nat>
    decreases b.len(),
{
    if b.len() == 0 {
        Some(0)
    } else {
        match (hex_digits_value(b.drop_last()), hex_digit_value(b.last())) {
            (Some(v), Some(d)) => Some(16 * v + d),
            _ => None,
        }
    }
}

/// `u8::from_str_radix(s, 16)` on the bytes of `s`: an optional `+`, then one or more
/// hexadecimal digits whose value fits in a byte.
pub open spec fn radix16_u8(b: Seq<u8>) -> Option<u8> {
    let d = if b.len() > 0 && b[0] == 43u8 { b.subrange(1, b.len() as int) } else { b };
    if d.len() == 0 {
        None
    } else {
        match hex_digits_value(d) {
            Some(v) => if v <= 255 { Some(v as u8) } else { None },
            None => None,
        }
    }
}

fn hex_digit_of(c: u8) -> (r: Option<u8>)
    ensures
        r matches Some(v) ==> hex_digit_value(c) == Some(v as nat) && v < 16,
        r is None ==> hex_digit_value(c) is None,
{
    if 48 <= c && c <= 57 {
        Some(c - 48)
    } else if 97 <= c && c <= 102 {
        Some(c - 87)
    } else if 65 <= c && c <= 70 {
        Some(c - 55)
    } else {
        None
    }
}

proof fn lemma_one_digit(d: Seq<u8>)
    requires
        d.len() == 1,
    ensures
        hex_digits_value(d) == hex_digit_value(d[0]),
        hex_digits_value(d) matches Some(v) ==> v < 16,
{
    assert(hex_digits_value(d.drop_last()) == Some(0nat));
}

proof fn lemma_two_digits(d: Seq<u8>)
    requires
        d.len() == 2,
    ensures
        hex_digits_value(d) == (match (hex_digit_value(d[0]), hex_digit_value(d[1])) {
            (Some(x), Some(y)) => Some(16 * x + y),
            _ => None,
        }),
{
    lemma_one_digit(d.drop_last());
}

/// Parses one or two bytes as `u8::from_str_radix(_, 16)` does; `0` when that fails.
fn radix16_or_zero(b: &[u8]) -> (r: u8)
    requires
        1 <= b@.len() <= 2,
    ensures
        r == (match radix16_u8(b@) {
            Some(v) => v,
            None => 0u8,
        }),
        b@.len() == 1 ==> r < 16,
{
    if b.len() == 1 {
        proof {
            lemma_one_digit(b@);
        }
        match hex_digit_of(b[0]) {
            Some(v) => v,
            None => 0,
        }
    } else if b[0] == 43u8 {
        proof {
            lemma_one_digit(b@.subrange(1, 2));
        }
        match hex_digit_of(b[1]) {
            Some(v) => v,
            None => 0,
        }
    } else {
        proof {
            lemma_two_digits(b@);
        }
        match (hex_digit_of(b[0]), hex_digit_of(b[1])) {
            (Some(x), Some(y)) => 16 * x + y,
            _ => 0,
        }
    }
}

/// Text after all leading `#` characters.
pub open spec fn strip_hashes(s: Seq<char>) -> Seq<char>
    decreases s.len(),
{
    if s.len() > 0 && s[0] == '#' {
        strip_hashes(s.subrange(1, s.len() as int))
    } else {
        s
    }
}

/// The part of a color after trimming and after its leading `#` characters, as UTF-8 bytes.
pub open spec fn color_digits(hex: Seq<char>) -> Seq<u8> {
    bytes_of(strip_hashes(trimmed(hex)))
}

/// Whether a color text would be cut inside a character: a `#` color whose digits are six
/// bytes long with a character straddling byte 2 or 4, or three bytes long with a character
/// straddling byte 1 or 2.
pub open spec fn color_cuts_char(hex: Seq<char>) -> bool {
    let t = trimmed(hex);
    let b = color_digits(hex);
    &&& t.len() > 0 && t[0] == '#'
    &&& (b.len() == 6 && !(vstd::utf8::is_char_boundary(b, 2) && vstd::utf8::is_char_boundary(b, 4))
        || b.len() == 3 && !(vstd::utf8::is_char_boundary(b, 1) && vstd::utf8::is_char_boundary(b, 2)))
}

/// The byte of a hexadecimal pair, 0 when it does not parse.
pub open spec fn channel(b: Seq<u8>) -> u8 {
    match radix16_u8(b) {
        Some(v) => v,
        None => 0u8,
    }
}

/// The color a text names: `#rrggbb` or `#rgb` (each digit of the short form repeated; a part
/// that does not parse counts 0), or one of the names red, green, blue, white, black; black
/// for anything else. Surrounding whitespace and repeated leading `#` are ignored.
pub open spec fn color_of(hex: Seq<char>) -> Color {
    let t = trimmed(hex);
    let b = color_digits(hex);
    if t.len() > 0 && t[0] == '#' {
        if b.len() == 6 {
            Color::Rgb(channel(b.subrange(0, 2)), channel(b.subrange(2, 4)), channel(b.subrange(4, 6)))
        } else if b.len() == 3 {
            Color::Rgb(
                (channel(b.subrange(0, 1)) * 17) as u8,
                (channel(b.subrange(1, 2)) * 17) as u8,
                (channel(b.subrange(2, 3)) * 17) as u8,
            )
        } else {
            Color::Rgb(0, 0, 0)
        }
    } else if t == "red"@ {
        Color::Rgb(255, 0, 0)
    } else if t == "green"@ {
        Color::Rgb(0, 255, 0)
    } else if t == "blue"@ {
        Color::Rgb(0, 0, 255)
    } else if t == "white"@ {
        Color::Rgb(255, 255, 255)
    } else {
        Color::Rgb(0, 0, 0)
    }
}

fn strip_hashes_exec(t: &Vec<char>) -> (r: Vec<char>)
    ensures
        r@ == strip_hashes(t@),
{
    let mut k: usize = 0;
    assert(t@.subrange(0, t@.len() as int) =~= t@);
    while k < t.len() && t[k] == '#'
        invariant
            k <= t@.len(),
            strip_hashes(t@) == strip_hashes(t@.subrange(k as int, t@.len() as int)),
        decreases t@.len() - k,
    {
        assert(t@.subrange(k as int, t@.len() as int).subrange(1, t@.len() - k) =~= t@.subrange(k + 1, t@.len() as int));
        k = k + 1;
    }
    let mut r: Vec<char> = Vec::new();
    let mut i: usize = k;
    while i < t.len()
        invariant
            k <= i <= t@.len(),
            r@ == t@.subrange(k as int, i as int),
        decreases t@.len() - i,
    {
        r.push(t[i]);
        i = i + 1;
        assert(r@ =~= t@.subrange(k as int, i as int));
    }
    r
}

fn seq_eq_str(v: &Vec<char>, s: &str) -> (r: bool)
    ensures
        r == (v@ == s@),
{
    let text = string_from_chars(v.as_slice());
    crate::strings::string_eq(&text, s)
}

/// Whether `parse_color` can read `hex` without cutting a character (see `color_cuts_char`).
pub fn color_slices_ok(hex: &str) -> (r: bool)
    ensures
        r == !color_cuts_char(hex@),
{
    let t = trim(hex);
    if !(t.len() > 0 && t[0] == '#') {
        return true;
    }
    let h = strip_hashes_exec(&t);
    let hs = string_from_chars(h.as_slice());
    let s = hs.as_str();
    let n = s.as_bytes().len();
    if n == 6 {
        s.is_char_boundary(2) && s.is_char_boundary(4)
    } else if n == 3 {
        s.is_char_boundary(1) && s.is_char_boundary(2)
    } else {
        true
    }
}

/// The color a text names (see `color_of`).
pub fn parse_color(hex: &str) -> (r: Color)
    requires
        !color_cuts_char(hex@),
    ensures
        r == color_of(hex@),
{
    let t = trim(hex);
    if t.len() > 0 && t[0] == '#' {
        let h = strip_hashes_exec(&t);
        let hs = string_from_chars(h.as_slice());
        let b = hs.as_str().as_bytes();
        assert(b@ == color_digits(hex@));
        if b.len() == 6 {
            let r = radix16_or_zero(slice_range(b, 0, 2).as_slice());
            let g = radix16_or_zero(slice_range(b, 2, 4).as_slice());
            let bl = radix16_or_zero(slice_range(b, 4, 6).as_slice());
            Color::Rgb(r, g, bl)
        } else if b.len() == 3 {
            let r = radix16_or_zero(slice_range(b, 0, 1).as_slice());
            let g = radix16_or_zero(slice_range(b, 1, 2).as_slice());
            let bl = radix16_or_zero(slice_range(b, 2, 3).as_slice());
            Color::Rgb(r * 17, g * 17, bl * 17)
        } else {
            Color::Rgb(0, 0, 0)
        }
    } else if seq_eq_str(&t, "red") {
        Color::Rgb(255, 0, 0)
    } else if seq_eq_str(&t, "green") {
        Color::Rgb(0, 255, 0)
    } else if seq_eq_str(&t, "blue") {
        Color::Rgb(0, 0, 255)
    } else if seq_eq_str(&t, "white") {
        Color::Rgb(255, 255, 255)
    } else {
        Color::Rgb(0, 0, 0)
    }
}

/// The color a text names, or `None` when reading its digits would cut a character (where
/// `parse_color` is not defined).
pub fn try_parse_color(hex: &str) -> (r: Option<Color>)
    ensures
        r == (if color_cuts_char(hex@) { None } else { Some(color_of(hex@)) }),
{
    if color_slices_ok(hex) {
        Some(parse_color(hex))
    } else {
        None
    }
}

/// The bytes of `b` from `from` to `to`.
fn slice_range(b: &[u8], from: usize, to: usize) -> (r: Vec<u8>)
    requires
        from <= to <= b@.len(),
    ensures
        r@ == b@.subrange(from as int, to as int),
{
    let mut r: Vec<u8> = Vec::new();
    let mut k: usize = from;
    while k < to
        invariant
            from <= k <= to <= b@.len(),
            r@ == b@.subrange(from as int, k as int),
        decreases to - k,
    {
        r.push(b[k]);
        k = k + 1;
        assert(r@ =~= b@.subrange(from as int, k as int));
    }
    r
}

#[verifier::external_type_specification]
#[verifier::external_body]
pub struct ExXmlError(roxmltree::Error);

/// A node of a parsed XML document: its number, whether it is an element, its local tag name
/// (empty for other nodes), its attributes (local name and value, in document order) and the
/// number of its parent node.
pub struct XmlNode {
    pub id: usize,
    pub is_element: bool,
    pub tag: String,
    pub attrs: Vec<(String, String)>,
    pub parent: Option<usize>,
}

/// Abstract view of an XML node.
pub struct XmlNodeView {
    pub id: usize,
    pub is_element: bool,
    pub tag: Seq<char>,
    pub attrs: Seq<(Seq<char>, Seq<char>)>,
    pub parent: Option<usize>,
}

/// Abstract view of a node.
pub open spec fn node_view(n: XmlNode) -> XmlNodeView {
    XmlNodeView {
        id: n.id,
        is_element: n.is_element,
        tag: n.tag@,
        attrs: attrs_view(n.attrs@),
        parent: n.parent,
    }
}

/// Abstract views of nodes.
pub open spec fn nodes_view(v: Seq<XmlNode>) -> Seq<XmlNodeView> {
    v.map_values(|n: XmlNode| node_view(n))
}

/// The nodes of the document that `roxmltree::Document::parse` builds from `text`, in
/// document order (the document node first); `None` when the text is not well-formed XML.
pub uninterp spec fn xml_parse(text: Seq<char>) -> Option<Seq<XmlNodeView>>;

/// Parses `text` as XML (`roxmltree::Document::parse`) and lists its nodes in document order
/// (`Document::descendants`), each converted one for one: `NodeId::get_usize` of the node and
/// of its parent, `is_element`, the local tag name, and the attributes' local names and values.
/// A parsed document always holds a root element.
#[verifier::external_body]
fn parse_xml(text: &str) -> (r: Result<Vec<XmlNode>, roxmltree::Error>)
    ensures
        r is Ok <==> xml_parse(text@) is Some,
        r matches Ok(v) ==> xml_parse(text@) == Some(nodes_view(v@)),
        r matches Ok(v) ==> exists|i: int| 0 <= i < v@.len() && (#[trigger] v@[i]).is_element,
{
    let doc = roxmltree::Document::parse(text)?;
    Ok(doc.descendants().map(|n| XmlNode {
        id: n.id().get_usize(),
        is_element: n.is_element(),
        tag: n.tag_name().name().to_string(),
        attrs: n.attributes().map(|a| (a.name().to_string(), a.value().to_string())).collect(),
        parent: n.parent().map(|p| p.id().get_usize()),
    }).collect())
}

/// The value of the first attribute with local name `name`.
pub open spec fn attr_of(attrs: Seq<(Seq<char>, Seq<char>)>, name: Seq<char>) -> Option<Seq<char>>
    decreases attrs.len(),
{
    if attrs.len() == 0 {
        None
    } else if attrs[0].0 == name {
        Some(attrs[0].1)
    } else {
        attr_of(attrs.subrange(1, attrs.len() as int), name)
    }
}

/// The pieces of `s` between the occurrences of `sep` (one piece when there is none).
pub open spec fn split_on(s: Seq<char>, sep: char) -> Seq<Seq<char>>
    decreases s.len(),
{
    if s.len() == 0 {
        seq![Seq::empty()]
    } else {
        let p = split_on(s.drop_last(), sep);
        if s.last() == sep {
            p.push(Seq::empty())
        } else {
            p.update(p.len() - 1, p.last().push(s.last()))
        }
    }
}

/// In a `style` attribute (`key: value` declarations separated by `;`), the first declaration
/// whose trimmed key is `name`: `Some` of its trimmed value (`None` when it has no `:`), or
/// `None` when no declaration has that key.
pub open spec fn style_lookup(parts: Seq<Seq<char>>, name: Seq<char>) -> Option<Option<Seq<char>>>
    decreases parts.len(),
{
    if parts.len() == 0 {
        None
    } else {
        let kv = split_on(parts[0], ':');
        if trimmed(kv[0]) == name {
            Some(if kv.len() > 1 { Some(trimmed(kv[1])) } else { None })
        } else {
            style_lookup(parts.subrange(1, parts.len() as int), name)
        }
    }
}

/// The position of the first node numbered `id` at or after position `k`.
pub open spec fn node_index_from(nodes: Seq<XmlNodeView>, id: usize, k: int) -> Option<int>
    decreases nodes.len() - k,
{
    if k < 0 || k >= nodes.len() {
        None
    } else if nodes[k].id == id {
        Some(k)
    } else {
        node_index_from(nodes, id, k + 1)
    }
}

/// The position of the first node numbered `id`.
pub open spec fn node_index(nodes: Seq<XmlNodeView>, id: usize) -> Option<int> {
    node_index_from(nodes, id, 0)
}

/// What node `n` itself says of attribute `name`: its own attribute, else the declaration in
/// its `style` attribute (which settles the matter even without a value); `None` when neither
/// mentions it.
pub open spec fn settled_at(n: XmlNodeView, name: Seq<char>) -> Option<Option<Seq<char>>> {
    match attr_of(n.attrs, name) {
        Some(v) => Some(Some(v)),
        None => match attr_of(n.attrs, "style"@) {
            Some(st) => style_lookup(split_on(st, ';'), name),
            None => None,
        },
    }
}

/// A presentation attribute of node `i`: what the node itself says (`settled_at`), else the
/// same lookup on its parent when the parent is an element, for at most `fuel` steps up.
pub open spec fn find_attr(nodes: Seq<XmlNodeView>, i: int, name: Seq<char>, fuel: nat) -> Option<Seq<char>>
    decreases fuel,
{
    match settled_at(nodes[i], name) {
        Some(v) => v,
        None => if fuel == 0 {
            None
        } else {
            match nodes[i].parent {
                Some(pid) => match node_index(nodes, pid) {
                    Some(j) => if nodes[j].is_element { find_attr(nodes, j, name, (fuel - 1) as nat) } else { None },
                    None => None,
                },
                None => None,
            }
        },
    }
}

/// Abstract view of attributes.
pub open spec fn attrs_view(v: Seq<(String, String)>) -> Seq<(Seq<char>, Seq<char>)> {
    v.map_values(|a: (String, String)| (a.0@, a.1@))
}

/// Abstract view of an optional string.
pub open spec fn opt_view(o: Option<String>) -> Option<Seq<char>> {
    match o {
        Some(s) => Some(s@),
        None => None,
    }
}

/// Abstract view of a list of character lists.
pub open spec fn pieces_view(v: Seq<Vec<char>>) -> Seq<Seq<char>> {
    v.map_values(|p: Vec<char>| p@)
}

/// The value of the first attribute named `name`.
pub fn attr_value(attrs: &Vec<(String, String)>, name: &str) -> (r: Option<String>)
    ensures
        opt_view(r) == attr_of(attrs_view(attrs@), name@),
{
    let ghost v = attrs_view(attrs@);
    let mut k: usize = 0;
    assert(v.subrange(0, v.len() as int) =~= v);
    while k < attrs.len()
        invariant
            k <= attrs@.len(),
            v == attrs_view(attrs@),
            attr_of(v, name@) == attr_of(v.subrange(k as int, v.len() as int), name@),
        decreases attrs@.len() - k,
    {
        let ghost rest = v.subrange(k as int, v.len() as int);
        assert(rest[0] == v[k as int]);
        assert(rest.subrange(1, rest.len() as int) =~= v.subrange(k + 1, v.len() as int));
        if crate::strings::string_eq(&attrs[k].0, name) {
            return Some(attrs[k].1.clone());
        }
        k = k + 1;
    }
    None
}

proof fn lemma_split_nonempty(s: Seq<char>, sep: char)
    ensures
        split_on(s, sep).len() >= 1,
    decreases s.len(),
{
    if s.len() > 0 {
        lemma_split_nonempty(s.drop_last(), sep);
    }
}

/// The pieces of `s` between the occurrences of `sep`.
pub fn split_chars(s: &[char], sep: char) -> (r: Vec<Vec<char>>)
    ensures
        pieces_view(r@) == split_on(s@, sep),
{
    let mut r: Vec<Vec<char>> = Vec::new();
    r.push(Vec::new());
    let mut k: usize = 0;
    assert(pieces_view(r@) =~= split_on(s@.subrange(0, 0), sep));
    while k < s.len()
        invariant
            k <= s@.len(),
            pieces_view(r@) == split_on(s@.subrange(0, k as int), sep),
            r@.len() >= 1,
        decreases s@.len() - k,
    {
        let c = s[k];
        let ghost before = pieces_view(r@);
        assert(s@.subrange(0, k + 1).drop_last() =~= s@.subrange(0, k as int));
        if c == sep {
            r.push(Vec::new());
            assert(pieces_view(r@) =~= before.push(Seq::empty()));
        } else {
            let ghost rb = r@;
            let mut last = match r.pop() {
                Some(l) => l,
                None => Vec::new(),
            };
            last.push(c);
            r.push(last);
            assert(pieces_view(r@) =~= before.update(before.len() - 1, before.last().push(c)));
        }
        k = k + 1;
    }
    assert(s@.subrange(0, s@.len() as int) =~= s@);
    r
}

/// Looks `name` up in the declarations of a `style` attribute (see `style_lookup`).
pub fn style_value(style: &str, name: &str) -> (r: Option<Option<String>>)
    ensures
        match r {
            Some(v) => style_lookup(split_on(style@, ';'), name@) == Some(opt_view(v)),
            None => style_lookup(split_on(style@, ';'), name@) is None,
        },
{
    let cs = chars_of(style);
    let parts = split_chars(cs.as_slice(), ';');
    let ghost pv = pieces_view(parts@);
    let mut k: usize = 0;
    assert(pv.subrange(0, pv.len() as int) =~= pv);
    while k < parts.len()
        invariant
            k <= parts@.len(),
            pv == pieces_view(parts@),
            pv == split_on(style@, ';'),
            style_lookup(pv, name@) == style_lookup(pv.subrange(k as int, pv.len() as int), name@),
        decreases parts@.len() - k,
    {
        let ghost rest = pv.subrange(k as int, pv.len() as int);
        assert(rest[0] == parts@[k as int]@);
        assert(rest.subrange(1, rest.len() as int) =~= pv.subrange(k + 1, pv.len() as int));
        let kv = split_chars(parts[k].as_slice(), ':');
        proof {
            lemma_split_nonempty(parts@[k as int]@, ':');
        }
        let key_text = string_from_chars(kv[0].as_slice());
        let key = trim(key_text.as_str());
        if seq_eq_str(&key, name) {
            if kv.len() > 1 {
                let val_text = string_from_chars(kv[1].as_slice());
                let val = trim(val_text.as_str());
                return Some(Some(string_from_chars(val.as_slice())));
            } else {
                return Some(None);
            }
        }
        k = k + 1;
    }
    None
}

/// The position of the first node numbered `id`.
pub fn index_of_node(nodes: &Vec<XmlNode>, id: usize) -> (r: Option<usize>)
    ensures
        match r {
            Some(i) => node_index(nodes_view(nodes@), id) == Some(i as int) && i < nodes@.len(),
            None => node_index(nodes_view(nodes@), id) is None,
        },
{
    let ghost nv = nodes_view(nodes@);
    let mut k: usize = 0;
    while k < nodes.len()
        invariant
            k <= nodes@.len(),
            nv == nodes_view(nodes@),
            node_index(nv, id) == node_index_from(nv, id, k as int),
        decreases nodes@.len() - k,
    {
        assert(nv[k as int].id == nodes@[k as int].id);
        if nodes[k].id == id {
            return Some(k);
        }
        k = k + 1;
    }
    None
}

fn settled(n: &XmlNode, name: &str) -> (r: Option<Option<String>>)
    ensures
        match r {
            Some(v) => settled_at(node_view(*n), name@) == Some(opt_view(v)),
            None => settled_at(node_view(*n), name@) is None,
        },
{
    match attr_value(&n.attrs, name) {
        Some(v) => Some(Some(v)),
        None => match attr_value(&n.attrs, "style") {
            Some(st) => style_value(st.as_str(), name),
            None => None,
        },
    }
}

/// A presentation attribute of node `i`, looked up as `find_attr` does, following parents for
/// as many steps as there are nodes.
pub fn find_attribute(nodes: &Vec<XmlNode>, i: usize, name: &str) -> (r: Option<String>)
    requires
        i < nodes@.len(),
    ensures
        opt_view(r) == find_attr(nodes_view(nodes@), i as int, name@, nodes@.len()),
{
    let ghost nv = nodes_view(nodes@);
    let ghost goal = find_attr(nv, i as int, name@, nodes@.len());
    let mut cur = i;
    let mut fuel = nodes.len();
    while true
        invariant
            cur < nodes@.len(),
            nv == nodes_view(nodes@),
            goal == find_attr(nodes_view(nodes@), i as int, name@, nodes@.len()),
            goal == find_attr(nv, cur as int, name@, fuel as nat),
        decreases fuel,
    {
        let n = &nodes[cur];
        assert(node_view(*n) == nv[cur as int]);
        match settled(n, name) {
            Some(v) => {
                return v;
            },
            None => {},
        }
        if fuel == 0 {
            return None;
        }
        match n.parent {
            Some(pid) => match index_of_node(nodes, pid) {
                Some(j) => {
                    if nodes[j].is_element {
                        cur = j;
                        fuel = fuel - 1;
                    } else {
                        return None;
                    }
                },
                None => {
                    return None;
                },
            },
            None => {
                return None;
            },
        }
    }
    None
}

/// The kind of a drawn shape.
#[derive(Clone, Copy, PartialEq, Eq, Debug, Structural)]
pub enum ShapeKind {
    Rect,
    Circle,
    Path,
}

/// A shape an SVG document draws: its kind, its geometry as written (x, y, width, height of a
/// rectangle and cx, cy, r of a circle, each "0" when missing; the path data of a path), its
/// fill and stroke colors (default "#000000" and "none", possibly inherited) and its stroke
/// width as written, if any.
pub struct SvgShape {
    pub kind: ShapeKind,
    pub params: Vec<String>,
    pub fill: String,
    pub stroke: String,
    pub stroke_width: Option<String>,
}

/// Abstract view of a shape.
pub struct ShapeView {
    pub kind: ShapeKind,
    pub params: Seq<Seq<char>>,
    pub fill: Seq<char>,
    pub stroke: Seq<char>,
    pub stroke_width: Option<Seq<char>>,
}

/// Abstract view of a list of strings.
pub open spec fn strs_view(v: Seq<String>) -> Seq<Seq<char>> {
    v.map_values(|s: String| s@)
}

/// Abstract view of a shape.
pub open spec fn shape_view(s: SvgShape) -> ShapeView {
    ShapeView { kind: s.kind, params: strs_view(s.params@), fill: s.fill@, stroke: s.stroke@, stroke_width: opt_view(s.stroke_width) }
}

/// Abstract views of shapes.
pub open spec fn shapes_view(v: Seq<SvgShape>) -> Seq<ShapeView> {
    v.map_values(|s: SvgShape| shape_view(s))
}

/// An attribute of the node itself, "0" when missing.
pub open spec fn attr_or_zero(n: XmlNodeView, name: Seq<char>) -> Seq<char> {
    match attr_of(n.attrs, name) {
        Some(v) => v,
        None => "0"@,
    }
}

/// The shape node `i` draws, if any: elements other than `svg`, `g` and `defs` whose fill and
/// stroke are not both "none", when they are a `rect`, a `circle` or a `path` with data.
pub open spec fn shape_of(nodes: Seq<XmlNodeView>, i: int) -> Option<ShapeView> {
    let n = nodes[i];
    let fill = match find_attr(nodes, i, "fill"@, nodes.len()) { Some(v) => v, None => "#000000"@ };
    let stroke = match find_attr(nodes, i, "stroke"@, nodes.len()) { Some(v) => v, None => "none"@ };
    let sw = find_attr(nodes, i, "stroke-width"@, nodes.len());
    if !n.is_element || n.tag == "svg"@ || n.tag == "g"@ || n.tag == "defs"@ {
        None
    } else if fill == "none"@ && stroke == "none"@ {
        None
    } else if n.tag == "rect"@ {
        Some(ShapeView {
            kind: ShapeKind::Rect,
            params: seq![attr_or_zero(n, "x"@), attr_or_zero(n, "y"@), attr_or_zero(n, "width"@), attr_or_zero(n, "height"@)],
            fill, stroke, stroke_width: sw,
        })
    } else if n.tag == "circle"@ {
        Some(ShapeView {
            kind: ShapeKind::Circle,
            params: seq![attr_or_zero(n, "cx"@), attr_or_zero(n, "cy"@), attr_or_zero(n, "r"@)],
            fill, stroke, stroke_width: sw,
        })
    } else if n.tag == "path"@ {
        match attr_of(n.attrs, "d"@) {
            Some(d) => Some(ShapeView { kind: ShapeKind::Path, params: seq![d], fill, stroke, stroke_width: sw }),
            None => None,
        }
    } else {
        None
    }
}

/// The shapes of the first `k` nodes, in document order.
pub open spec fn shapes_upto(nodes: Seq<XmlNodeView>, k: int) -> Seq<ShapeView>
    decreases k,
{
    if k <= 0 {
        Seq::empty()
    } else {
        match shape_of(nodes, k - 1) {
            Some(sh) => shapes_upto(nodes, k - 1).push(sh),
            None => shapes_upto(nodes, k - 1),
        }
    }
}

proof fn lemma_shape_listed(nodes: Seq<XmlNodeView>, i: int, k: int)
    requires
        0 <= i < k,
        shape_of(nodes, i) is Some,
    ensures
        shapes_upto(nodes, k).contains(shape_of(nodes, i)->0),
    decreases k,
{
    let sh = shape_of(nodes, i)->0;
    if i == k - 1 {
        assert(shapes_upto(nodes, k) == shapes_upto(nodes, k - 1).push(sh));
        assert(shapes_upto(nodes, k)[shapes_upto(nodes, k - 1).len() as int] == sh);
    } else {
        lemma_shape_listed(nodes, i, k - 1);
        let prev = shapes_upto(nodes, k - 1);
        let j = choose|j: int| 0 <= j < prev.len() && prev[j] == sh;
        match shape_of(nodes, k - 1) {
            Some(x) => {
                assert(shapes_upto(nodes, k) == prev.push(x));
                assert(shapes_upto(nodes, k)[j] == sh);
            },
            None => {},
        }
    }
}

/// A shape for which neither its element nor any ancestor gives a fill is filled black: a
/// `rect`, a `circle` or a `path` with data whose fill is not given is drawn, with fill
/// `#000000`, and it is among the document's shapes.
pub proof fn unfilled_shape_is_black(nodes: Seq<XmlNodeView>, i: int)
    requires
        0 <= i < nodes.len(),
        nodes[i].is_element,
        nodes[i].tag == "rect"@ || nodes[i].tag == "circle"@
            || (nodes[i].tag == "path"@ && attr_of(nodes[i].attrs, "d"@) is Some),
        find_attr(nodes, i, "fill"@, nodes.len()) is None,
    ensures
        shape_of(nodes, i) matches Some(sh) && sh.fill == "#000000"@
            && shapes_upto(nodes, nodes.len() as int).contains(sh),
{
    reveal_strlit("#000000");
    reveal_strlit("none");
    reveal_strlit("rect");
    reveal_strlit("circle");
    reveal_strlit("path");
    reveal_strlit("svg");
    reveal_strlit("g");
    reveal_strlit("defs");
    assert("#000000"@ != "none"@) by {
        assert("#000000"@.len() != "none"@.len());
    }
    let t = nodes[i].tag;
    assert(t != "svg"@ && t != "g"@ && t != "defs"@) by {
        if t == "rect"@ {
            assert(t[0] != "svg"@[0] && t[0] != "g"@[0] && t[0] != "defs"@[0]);
        } else if t == "circle"@ {
            assert(t[0] != "svg"@[0] && t[0] != "g"@[0] && t[0] != "defs"@[0]);
        } else {
            assert(t[0] != "svg"@[0] && t[0] != "g"@[0] && t[0] != "defs"@[0]);
        }
    }
    assert(shape_of(nodes, i) is Some);
    lemma_shape_listed(nodes, i, nodes.len() as int);
}

fn attr_or_zero_exec(n: &XmlNode, name: &str) -> (r: String)
    ensures
        r@ == attr_or_zero(node_view(*n), name@),
{
    match attr_value(&n.attrs, name) {
        Some(v) => v,
        None => String::from_str("0"),
    }
}

fn str_eq(a: &String, b: &str) -> (r: bool)
    ensures
        r == (a@ == b@),
{
    crate::strings::string_eq(a, b)
}

fn shape_at(nodes: &Vec<XmlNode>, i: usize) -> (r: Option<SvgShape>)
    requires
        i < nodes@.len(),
    ensures
        match r {
            Some(sh) => shape_of(nodes_view(nodes@), i as int) == Some(shape_view(sh)),
            None => shape_of(nodes_view(nodes@), i as int) is None,
        },
{
    let n = &nodes[i];
    assert(node_view(*n) == nodes_view(nodes@)[i as int]);
    let fill = match find_attribute(nodes, i, "fill") {
        Some(v) => v,
        None => String::from_str("#000000"),
    };
    let stroke = match find_attribute(nodes, i, "stroke") {
        Some(v) => v,
        None => String::from_str("none"),
    };
    let sw = find_attribute(nodes, i, "stroke-width");
    if !n.is_element || str_eq(&n.tag, "svg") || str_eq(&n.tag, "g") || str_eq(&n.tag, "defs") {
        return None;
    }
    if str_eq(&fill, "none") && str_eq(&stroke, "none") {
        return None;
    }
    let mut params: Vec<String> = Vec::new();
    let kind = if str_eq(&n.tag, "rect") {
        params.push(attr_or_zero_exec(n, "x"));
        params.push(attr_or_zero_exec(n, "y"));
        params.push(attr_or_zero_exec(n, "width"));
        params.push(attr_or_zero_exec(n, "height"));
        ShapeKind::Rect
    } else if str_eq(&n.tag, "circle") {
        params.push(attr_or_zero_exec(n, "cx"));
        params.push(attr_or_zero_exec(n, "cy"));
        params.push(attr_or_zero_exec(n, "r"));
        ShapeKind::Circle
    } else if str_eq(&n.tag, "path") {
        match attr_value(&n.attrs, "d") {
            Some(d) => {
                params.push(d);
                ShapeKind::Path
            },
            None => {
                return None;
            },
        }
    } else {
        return None;
    };
    let sh = SvgShape { kind, params, fill, stroke, stroke_width: sw };
    assert(shape_view(sh).params =~= shape_of(nodes_view(nodes@), i as int).unwrap().params);
    Some(sh)
}

/// The shapes the nodes draw, in document order.
pub fn svg_shapes(nodes: &Vec<XmlNode>) -> (r: Vec<SvgShape>)
    ensures
        shapes_view(r@) == shapes_upto(nodes_view(nodes@), nodes@.len() as int),
{
    let mut r: Vec<SvgShape> = Vec::new();
    let mut k: usize = 0;
    assert(shapes_view(r@) =~= shapes_upto(nodes_view(nodes@), 0));
    while k < nodes.len()
        invariant
            k <= nodes@.len(),
            shapes_view(r@) == shapes_upto(nodes_view(nodes@), k as int),
        decreases nodes@.len() - k,
    {
        let ghost before = shapes_view(r@);
        match shape_at(nodes, k) {
            Some(sh) => {
                r.push(sh);
                assert(shapes_view(r@) =~= before.push(shape_view(sh)));
            },
            None => {},
        }
        k = k + 1;
    }
    r
}

/// `tokens` with `cur` added when it is not empty.
pub open spec fn flush(tokens: Seq<Seq<char>>, cur: Seq<char>) -> Seq<Seq<char>> {
    if cur.len() == 0 {
        tokens
    } else {
        tokens.push(cur)
    }
}

/// Whether `c` separates the numbers of a view box.
pub open spec fn is_view_box_sep(c: char) -> bool {
    c == ',' || white_space(c)
}

/// Tokens of a view box read so far, and the token being read.
pub open spec fn view_box_state(s: Seq<char>) -> (Seq<Seq<char>>, Seq<char>)
    decreases s.len(),
{
    if s.len() == 0 {
        (Seq::empty(), Seq::empty())
    } else {
        let (t, cur) = view_box_state(s.drop_last());
        if is_view_box_sep(s.last()) {
            (flush(t, cur), Seq::empty())
        } else {
            (t, cur.push(s.last()))
        }
    }
}

/// The non-empty pieces of a view box between commas and whitespace.
pub open spec fn view_box_tokens(s: Seq<char>) -> Seq<Seq<char>> {
    flush(view_box_state(s).0, view_box_state(s).1)
}

/// The view box text of a document: the `viewBox` attribute of its first element, or
/// "0 0 100 100".
pub open spec fn view_box_text(nodes: Seq<XmlNodeView>) -> Seq<char> {
    let i = choose|i: int| 0 <= i < nodes.len() && nodes[i].is_element && forall|j: int| 0 <= j < i ==> !(#[trigger] nodes[j]).is_element;
    match attr_of(nodes[i].attrs, "viewBox"@) {
        Some(v) => v,
        None => "0 0 100 100"@,
    }
}

/// Abstract view of a list of character lists.
fn strings_of(v: &Vec<Vec<char>>) -> (r: Vec<String>)
    ensures
        strs_view(r@) == pieces_view(v@),
{
    let mut r: Vec<String> = Vec::new();
    let mut k: usize = 0;
    while k < v.len()
        invariant
            k <= v@.len(),
            strs_view(r@) == pieces_view(v@.subrange(0, k as int)),
        decreases v@.len() - k,
    {
        let ghost before = strs_view(r@);
        let item = string_from_chars(v[k].as_slice());
        r.push(item);
        assert(strs_view(r@) =~= before.push(v@[k as int]@));
        assert(pieces_view(v@.subrange(0, k + 1)) =~= pieces_view(v@.subrange(0, k as int)).push(v@[k as int]@));
        k = k + 1;
    }
    assert(v@.subrange(0, v@.len() as int) =~= v@);
    r
}

/// The numbers of a view box as written (see `view_box_tokens`).
pub fn split_view_box(s: &str) -> (r: Vec<String>)
    ensures
        strs_view(r@) == view_box_tokens(s@),
{
    let cs = chars_of(s);
    let mut tokens: Vec<Vec<char>> = Vec::new();
    let mut cur: Vec<char> = Vec::new();
    let mut k: usize = 0;
    assert(pieces_view(tokens@) =~= Seq::<Seq<char>>::empty());
    while k < cs.len()
        invariant
            k <= cs@.len(),
            cs@ == s@,
            view_box_state(cs@.subrange(0, k as int)) == (pieces_view(tokens@), cur@),
        decreases cs@.len() - k,
    {
        let c = cs[k];
        assert(cs@.subrange(0, k + 1).drop_last() =~= cs@.subrange(0, k as int));
        let ghost tb = pieces_view(tokens@);
        if c == ',' || is_whitespace(c) {
            if cur.len() > 0 {
                tokens.push(cur);
                assert(pieces_view(tokens@) =~= tb.push(cur@));
            }
            cur = Vec::new();
        } else {
            cur.push(c);
        }
        k = k + 1;
    }
    assert(cs@.subrange(0, cs@.len() as int) =~= cs@);
    let ghost tb = pieces_view(tokens@);
    if cur.len() > 0 {
        tokens.push(cur);
        assert(pieces_view(tokens@) =~= tb.push(cur@));
    }
    strings_of(&tokens)
}

/// Why an SVG document could not be read.
#[derive(Clone, Copy, PartialEq, Eq, Debug, Structural)]
pub enum SvgError {
    /// The text is not well-formed XML.
    InvalidXml,
}

/// What an SVG document draws: the numbers of its view box as written, and its shapes.
pub struct SvgLayout {
    pub view_box: Vec<String>,
    pub shapes: Vec<SvgShape>,
}

/// Reader of SVG documents.
pub struct SvgRenderer;

impl SvgRenderer {
    /// Reads an SVG document: the numbers of its view box (see `view_box_text`) and the shapes it
    /// draws, in document order.
    pub fn layout(text: &str) -> (r: Result<SvgLayout, SvgError>)
        ensures
            r is Ok <==> xml_parse(text@) is Some,
            r matches Ok(l) ==> xml_parse(text@) matches Some(nodes) && strs_view(l.view_box@) == view_box_tokens(view_box_text(nodes))
                && shapes_view(l.shapes@) == shapes_upto(nodes, nodes.len() as int),
    {
        let nodes = match parse_xml(text) {
            Ok(v) => v,
            Err(_) => {
                return Err(SvgError::InvalidXml);
            },
        };
        let ghost nv = nodes_view(nodes@);
        let mut k: usize = 0;
        while k < nodes.len() && !nodes[k].is_element
            invariant
                k <= nodes@.len(),
                nv == nodes_view(nodes@),
                forall|j: int| 0 <= j < k ==> !(#[trigger] nv[j]).is_element,
            decreases nodes@.len() - k,
        {
            assert(nv[k as int].is_element == nodes@[k as int].is_element);
            k = k + 1;
        }
        proof {
            let i0 = choose|i: int| 0 <= i < nodes@.len() && (#[trigger] nodes@[i]).is_element;
            if k >= nodes@.len() {
                assert(nv[i0].is_element);
            }
            assert(nv[k as int].is_element);
            let c = choose|i: int| 0 <= i < nv.len() && nv[i].is_element && forall|j: int| 0 <= j < i ==> !(#[trigger] nv[j]).is_element;
            assert(c == k as int) by {
                if c < k {
                    assert(!nv[c].is_element);
                } else if c > k {
                    assert(!nv[k as int].is_element);
                }
            }
            assert(node_view(nodes@[k as int]) == nv[k as int]);
        }
        let vb = match attr_value(&nodes[k].attrs, "viewBox") {
            Some(v) => v,
            None => String::from_str("0 0 100 100"),
        };
        let view_box = split_view_box(vb.as_str());
        let shapes = svg_shapes(&nodes);
        Ok(SvgLayout { view_box, shapes })
    }
}

/// Tokens of path data read so far, and the token being read.
pub open spec fn path_state(d: Seq<char>) -> (Seq<Seq<char>>, Seq<char>)
    decreases d.len(),
{
    if d.len() == 0 {
        (Seq::empty(), Seq::empty())
    } else {
        let (t, cur) = path_state(d.drop_last());
        let c = d.last();
        if alphabetic(c) && c != 'e' && c != 'E' {
            (flush(t, cur).push(seq![c]), Seq::empty())
        } else if white_space(c) || c == ',' {
            (flush(t, cur), Seq::empty())
        } else if c == '-' {
            if cur.len() > 0 && !(cur.last() == 'e' || cur.last() == 'E') {
                (t.push(cur), seq!['-'])
            } else {
                (t, cur.push('-'))
            }
        } else {
            (t, cur.push(c))
        }
    }
}

/// The tokens of path data: each letter (other than an exponent `e`) alone, numbers split at
/// whitespace, commas and at a minus sign that does not follow an exponent.
pub open spec fn path_tokens(d: Seq<char>) -> Seq<Seq<char>> {
    flush(path_state(d).0, path_state(d).1)
}

/// Splits path data into tokens (see `path_tokens`).
pub fn tokenize_path(d: &str) -> (r: Vec<String>)
    ensures
        strs_view(r@) == path_tokens(d@),
{
    let cs = chars_of(d);
    let mut tokens: Vec<Vec<char>> = Vec::new();
    let mut cur: Vec<char> = Vec::new();
    let mut k: usize = 0;
    assert(pieces_view(tokens@) =~= Seq::<Seq<char>>::empty());
    while k < cs.len()
        invariant
            k <= cs@.len(),
            cs@ == d@,
            path_state(cs@.subrange(0, k as int)) == (pieces_view(tokens@), cur@),
        decreases cs@.len() - k,
    {
        let c = cs[k];
        assert(cs@.subrange(0, k + 1).drop_last() =~= cs@.subrange(0, k as int));
        assert(cs@.subrange(0, k + 1).last() == c);
        let ghost tb = pieces_view(tokens@);
        let ghost cb = cur@;
        if is_alphabetic(c) && c != 'e' && c != 'E' {
            if cur.len() > 0 {
                tokens.push(cur);
            }
            let ghost tf = pieces_view(tokens@);
            assert(tf =~= flush(tb, cb));
            let mut one: Vec<char> = Vec::new();
            one.push(c);
            tokens.push(one);
            assert(pieces_view(tokens@) =~= flush(tb, cb).push(seq![c]));
            cur = Vec::new();
        } else if is_whitespace(c) || c == ',' {
            if cur.len() > 0 {
                tokens.push(cur);
            }
            assert(pieces_view(tokens@) =~= flush(tb, cb));
            cur = Vec::new();
        } else if c == '-' {
            let prev_is_e = cur.len() > 0 && (cur[cur.len() - 1] == 'e' || cur[cur.len() - 1] == 'E');
            if cur.len() > 0 && !prev_is_e {
                tokens.push(cur);
                assert(pieces_view(tokens@) =~= tb.push(cb));
                cur = Vec::new();
                cur.push('-');
                assert(cur@ =~= seq!['-']);
            } else {
                cur.push('-');
            }
        } else {
            cur.push(c);
        }
        k = k + 1;
    }
    assert(cs@.subrange(0, cs@.len() as int) =~= cs@);
    let ghost tb = pieces_view(tokens@);
    if cur.len() > 0 {
        tokens.push(cur);
        assert(pieces_view(tokens@) =~= tb.push(cur@));
    }
    strings_of(&tokens)
}

/// A drawing command of path data and the position of its first argument token.
#[derive(Clone, Copy, PartialEq, Eq, Debug, Structural)]
pub struct PathSeg {
    pub cmd: char,
    pub at: usize,
}

/// Whether a token is a command: a single ASCII (one-byte) alphabetic character.
pub open spec fn is_command_token(t: Seq<char>) -> bool {
    t.len() == 1 && (t[0] as u32) < 128 && alphabetic(t[0])
}

/// Whether `c` is a drawing command that takes arguments.
pub open spec fn takes_args(c: char) -> bool {
    c == 'M' || c == 'm' || c == 'L' || c == 'l' || c == 'H' || c == 'h' || c == 'V' || c == 'v'
        || c == 'C' || c == 'c' || c == 'S' || c == 's' || c == 'Q' || c == 'q' || c == 'A' || c == 'a'
}

/// The number of argument tokens a command reads: two for move and line, one for horizontal and
/// vertical lines, six for cubic curves, four for smooth cubic and quadratic curves, seven
/// for arcs.
pub open spec fn arg_count(c: char) -> int {
    if c == 'M' || c == 'm' || c == 'L' || c == 'l' {
        2
    } else if c == 'H' || c == 'h' || c == 'V' || c == 'v' {
        1
    } else if c == 'C' || c == 'c' {
        6
    } else if c == 'S' || c == 's' || c == 'Q' || c == 'q' {
        4
    } else if c == 'A' || c == 'a' {
        7
    } else {
        0
    }
}

/// The command that repeats after `c` when arguments follow without a new command: a line
/// after a move, otherwise the same command.
pub open spec fn repeat_command(c: char) -> char {
    if c == 'M' {
        'L'
    } else if c == 'm' {
        'l'
    } else {
        c
    }
}

/// The commands of the tokens from position `i` on, with `cmd` the current command: a command
/// token sets it; a drawing command takes its arguments (and then repeats); close-path takes
/// none and clears the current command; any other command, or a number with no command,
/// skips one token. `None` when a command lacks arguments.
pub open spec fn path_plan(tokens: Seq<Seq<char>>, i: int, cmd: char) -> Option<Seq<PathSeg>>
    decreases tokens.len() + 1 - i, (if cmd == 'Z' || cmd == 'z' { 1int } else { 0int }),
{
    if i < 0 || i >= tokens.len() {
        Some(Seq::empty())
    } else {
        let c = if is_command_token(tokens[i]) { tokens[i][0] } else { cmd };
        let j = if is_command_token(tokens[i]) { i + 1 } else { i };
        if takes_args(c) {
            if j + arg_count(c) > tokens.len() {
                None
            } else {
                match path_plan(tokens, j + arg_count(c), repeat_command(c)) {
                    Some(rest) => Some(seq![PathSeg { cmd: c, at: j as usize }] + rest),
                    None => None,
                }
            }
        } else if c == 'Z' || c == 'z' {
            match path_plan(tokens, j, ' ') {
                Some(rest) => Some(seq![PathSeg { cmd: c, at: j as usize }] + rest),
                None => None,
            }
        } else {
            path_plan(tokens, j + 1, c)
        }
    }
}

fn command_of(t: &String) -> (r: Option<char>)
    ensures
        r matches Some(c) ==> is_command_token(t@) && c == t@[0],
        r is None ==> !is_command_token(t@),
{
    let cs = chars_of(t.as_str());
    if cs.len() == 1 && (cs[0] as u32) < 128 && is_alphabetic(cs[0]) {
        Some(cs[0])
    } else {
        None
    }
}

fn takes_args_exec(c: char) -> (r: bool)
    ensures
        r == takes_args(c),
{
    c == 'M' || c == 'm' || c == 'L' || c == 'l' || c == 'H' || c == 'h' || c == 'V' || c == 'v'
        || c == 'C' || c == 'c' || c == 'S' || c == 's' || c == 'Q' || c == 'q' || c == 'A' || c == 'a'
}

fn arg_count_exec(c: char) -> (r: usize)
    ensures
        r == arg_count(c),
{
    if c == 'M' || c == 'm' || c == 'L' || c == 'l' {
        2
    } else if c == 'H' || c == 'h' || c == 'V' || c == 'v' {
        1
    } else if c == 'C' || c == 'c' {
        6
    } else if c == 'S' || c == 's' || c == 'Q' || c == 'q' {
        4
    } else if c == 'A' || c == 'a' {
        7
    } else {
        0
    }
}

/// The drawing commands of path tokens, in order (see `path_plan`); `None` when a command
/// lacks arguments.
pub fn plan_path(tokens: &Vec<String>) -> (r: Option<Vec<PathSeg>>)
    ensures
        match r {
            Some(v) => path_plan(strs_view(tokens@), 0, ' ') == Some(v@),
            None => path_plan(strs_view(tokens@), 0, ' ') is None,
        },
{
    let ghost tv = strs_view(tokens@);
    let mut segs: Vec<PathSeg> = Vec::new();
    let mut i: usize = 0;
    let mut cmd: char = ' ';
    assert(segs@ + Seq::<PathSeg>::empty() =~= Seq::<PathSeg>::empty());
    while i < tokens.len()
        invariant
            i <= tokens@.len(),
            tv == strs_view(tokens@),
            path_plan(tv, 0, ' ') == match path_plan(tv, i as int, cmd) {
                Some(rest) => Some(segs@ + rest),
                None => None::<Seq<PathSeg>>,
            },
        decreases tokens@.len() - i, (if cmd == 'Z' || cmd == 'z' { 1int } else { 0int }),
    {
        assert(tv[i as int] == tokens@[i as int]@);
        let ghost i0 = i as int;
        let ghost cmd0 = cmd;
        let (c, j) = match command_of(&tokens[i]) {
            Some(letter) => (letter, i + 1),
            None => (cmd, i),
        };
        assert(c == (if is_command_token(tv[i0]) { tv[i0][0] } else { cmd0 }));
        assert(j == (if is_command_token(tv[i0]) { i0 + 1 } else { i0 }));
        if takes_args_exec(c) {
            let n = arg_count_exec(c);
            if j > tokens.len() || tokens.len() - j < n {
                return None;
            }
            let ghost before = segs@;
            segs.push(PathSeg { cmd: c, at: j });
            proof {
                let rest = path_plan(tv, (j + n) as int, repeat_command(c));
                if rest is Some {
                    assert(before + (seq![PathSeg { cmd: c, at: j }] + rest.unwrap()) =~= segs@ + rest.unwrap());
                }
            }
            i = j + n;
            cmd = if c == 'M' {
                'L'
            } else if c == 'm' {
                'l'
            } else {
                c
            };
        } else if c == 'Z' || c == 'z' {
            let ghost before = segs@;
            segs.push(PathSeg { cmd: c, at: j });
            proof {
                let rest = path_plan(tv, j as int, ' ');
                if rest is Some {
                    assert(before + (seq![PathSeg { cmd: c, at: j }] + rest.unwrap()) =~= segs@ + rest.unwrap());
                }
            }
            i = j;
            cmd = ' ';
        } else {
            assert(path_plan(tv, i0, cmd0) == path_plan(tv, j + 1, c));
            if j >= tokens.len() {
                i = tokens.len();
                assert(path_plan(tv, j + 1, c) == Some(Seq::<PathSeg>::empty()));
            } else {
                i = j + 1;
            }
            cmd = c;
        }
    }
    assert(segs@ + Seq::<PathSeg>::empty() =~= segs@);
    Some(segs)
}

/// Every command of a successful plan finds all its argument tokens: they lie within the
/// token list.
pub proof fn path_plan_in_bounds(tokens: Seq<Seq<char>>, i: int, cmd: char)
    ensures
        path_plan(tokens, i, cmd) matches Some(segs) ==> forall|k: int|
            0 <= k < segs.len() ==> (#[trigger] segs[k]).at + arg_count(segs[k].cmd) <= tokens.len(),
    decreases tokens.len() + 1 - i, (if cmd == 'Z' || cmd == 'z' { 1int } else { 0int }),
{
    if !(i < 0 || i >= tokens.len()) {
        let c = if is_command_token(tokens[i]) { tokens[i][0] } else { cmd };
        let j = if is_command_token(tokens[i]) { i + 1 } else { i };
        if takes_args(c) {
            if j + arg_count(c) <= tokens.len() {
                path_plan_in_bounds(tokens, j + arg_count(c), repeat_command(c));
                if let Some(rest) = path_plan(tokens, j + arg_count(c), repeat_command(c)) {
                    let segs = seq![PathSeg { cmd: c, at: j as usize }] + rest;
                    assert forall|k: int| 0 <= k < segs.len() implies (#[trigger] segs[k]).at + arg_count(segs[k].cmd) <= tokens.len() by {
                        if k > 0 {
                            assert(segs[k] == rest[k - 1]);
                        }
                    }
                }
            }
        } else if c == 'Z' || c == 'z' {
            path_plan_in_bounds(tokens, j, ' ');
            if let Some(rest) = path_plan(tokens, j, ' ') {
                let segs = seq![PathSeg { cmd: c, at: j as usize }] + rest;
                assert forall|k: int| 0 <= k < segs.len() implies (#[trigger] segs[k]).at + arg_count(segs[k].cmd) <= tokens.len() by {
                    if k > 0 {
                        assert(segs[k] == rest[k - 1]);
                    }
                }
            }
        } else {
            path_plan_in_bounds(tokens, j + 1, c);
        }
    }
}

} // verus!
