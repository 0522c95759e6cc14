//! Stable identifiers for rhythms.
use vstd::prelude::*;

verus! {

/// Characters an identifier may hold.
pub open spec fn is_id_char(c: char) -> bool {
    ('a' <= c && c <= 'z') || ('A' <= c && c <= 'Z') || ('0' <= c && c <= '9')
}

/// A well-formed identifier: four to eight ASCII alphanumeric characters.
pub open spec fn wf_id_seq(s: Seq<char>) -> bool {
    &&& 4 <= s.len() <= 8
    &&& forall|i: int| 0 <= i < s.len() ==> is_id_char(s[i])
}

/// What remains of a candidate identifier after an `id:` prefix, if any, is
/// taken off.
pub open spec fn strip_id_prefix(s: Seq<char>) -> Seq<char> {
    if s.len() >= 3 && s[0] == 'i' && s[1] == 'd' && s[2] == ':' {
        s.skip(3)
    } else {
        s
    }
}

/// A unique identifier for a process.  Identifiers will be unique across
/// process types.
#[derive(Clone, Debug, Default)]
pub struct ID {
    id: String,
}

impl View for ID {
    type V = Seq<char>;

    closed spec fn view(&self) -> Seq<char> {
        self.id@
    }
}

impl PartialEq for ID {
    fn eq(&self, other: &ID) -> bool {
        crate::strutil::str_eq(self.id.as_str(), other.id.as_str())
    }
}

impl vstd::std_specs::cmp::PartialEqSpecImpl for ID {
    open spec fn obeys_eq_spec() -> bool {
        true
    }

    open spec fn eq_spec(&self, other: &ID) -> bool {
        self@ == other@
    }
}

impl Eq for ID {

}


/// The alphanumeric alphabet an identifier is drawn from, indexed by a
/// value below sixty-two: the lowercase letters, the uppercase letters,
/// then the digits.
pub open spec fn alnum_char(v: int) -> char {
    if v == 0 {
        'a'
    } else if v == 1 {
        'b'
    } else if v == 2 {
        'c'
    } else if v == 3 {
        'd'
    } else if v == 4 {
        'e'
    } else if v == 5 {
        'f'
    } else if v == 6 {
        'g'
    } else if v == 7 {
        'h'
    } else if v == 8 {
        'i'
    } else if v == 9 {
        'j'
    } else if v == 10 {
        'k'
    } else if v == 11 {
        'l'
    } else if v == 12 {
        'm'
    } else if v == 13 {
        'n'
    } else if v == 14 {
        'o'
    } else if v == 15 {
        'p'
    } else if v == 16 {
        'q'
    } else if v == 17 {
        'r'
    } else if v == 18 {
        's'
    } else if v == 19 {
        't'
    } else if v == 20 {
        'u'
    } else if v == 21 {
        'v'
    } else if v == 22 {
        'w'
    } else if v == 23 {
        'x'
    } else if v == 24 {
        'y'
    } else if v == 25 {
        'z'
    } else if v == 26 {
        'A'
    } else if v == 27 {
        'B'
    } else if v == 28 {
        'C'
    } else if v == 29 {
        'D'
    } else if v == 30 {
        'E'
    } else if v == 31 {
        'F'
    } else if v == 32 {
        'G'
    } else if v == 33 {
        'H'
    } else if v == 34 {
        'I'
    } else if v == 35 {
        'J'
    } else if v == 36 {
        'K'
    } else if v == 37 {
        'L'
    } else if v == 38 {
        'M'
    } else if v == 39 {
        'N'
    } else if v == 40 {
        'O'
    } else if v == 41 {
        'P'
    } else if v == 42 {
        'Q'
    } else if v == 43 {
        'R'
    } else if v == 44 {
        'S'
    } else if v == 45 {
        'T'
    } else if v == 46 {
        'U'
    } else if v == 47 {
        'V'
    } else if v == 48 {
        'W'
    } else if v == 49 {
        'X'
    } else if v == 50 {
        'Y'
    } else if v == 51 {
        'Z'
    } else if v == 52 {
        '0'
    } else if v == 53 {
        '1'
    } else if v == 54 {
        '2'
    } else if v == 55 {
        '3'
    } else if v == 56 {
        '4'
    } else if v == 57 {
        '5'
    } else if v == 58 {
        '6'
    } else if v == 59 {
        '7'
    } else if v == 60 {
        '8'
    } else {
        '9'
    }
}

fn alnum_of(v: u8) -> (r: char)
    requires
        v < 62,
    ensures
        r == alnum_char(v as int),
{
    match v {
        0 => 'a',
        1 => 'b',
        2 => 'c',
        3 => 'd',
        4 => 'e',
        5 => 'f',
        6 => 'g',
        7 => 'h',
        8 => 'i',
        9 => 'j',
        10 => 'k',
        11 => 'l',
        12 => 'm',
        13 => 'n',
        14 => 'o',
        15 => 'p',
        16 => 'q',
        17 => 'r',
        18 => 's',
        19 => 't',
        20 => 'u',
        21 => 'v',
        22 => 'w',
        23 => 'x',
        24 => 'y',
        25 => 'z',
        26 => 'A',
        27 => 'B',
        28 => 'C',
        29 => 'D',
        30 => 'E',
        31 => 'F',
        32 => 'G',
        33 => 'H',
        34 => 'I',
        35 => 'J',
        36 => 'K',
        37 => 'L',
        38 => 'M',
        39 => 'N',
        40 => 'O',
        41 => 'P',
        42 => 'Q',
        43 => 'R',
        44 => 'S',
        45 => 'T',
        46 => 'U',
        47 => 'V',
        48 => 'W',
        49 => 'X',
        50 => 'Y',
        51 => 'Z',
        52 => '0',
        53 => '1',
        54 => '2',
        55 => '3',
        56 => '4',
        57 => '5',
        58 => '6',
        59 => '7',
        60 => '8',
        _ => '9',
    }
}

/// The identifier text six bytes map to: each byte picks an alphabet
/// character by its remainder below sixty-two.
pub open spec fn id_text_of(bytes: Seq<u8>) -> Seq<char> {
    Seq::new(bytes.len(), |i: int| alnum_char(bytes[i] as int % 62))
}

/// Relies on `rand::random` for six uniformly random bytes; nothing is
/// assumed of their values.
#[verifier::external_body]
fn random_bytes() -> (r: Vec<u8>)
    ensures
        r@.len() == 6,
{
    rand::random::<[u8; 6]>().to_vec()
}

impl ID {
    /// Accepts a well-formed identifier, with or without an `id:` prefix.
    pub fn new(id: String) -> (r: Option<ID>)
        ensures
            r is Some <==> wf_id_seq(strip_id_prefix(id@)),
            r matches Some(v) ==> v@ == strip_id_prefix(id@),
    {
        let ghost target = strip_id_prefix(id@);
        let len = id.as_str().unicode_len();
        let stripped: String = if len >= 3 && id.as_str().get_char(0) == 'i' && id.as_str().get_char(
            1,
        ) == 'd' && id.as_str().get_char(2) == ':' {
            let s = id.as_str().substring_char(3, len);
            proof {
                assert(s@ =~= id@.skip(3));
            }
            s.to_owned()
        } else {
            id
        };
        proof {
            assert(stripped@ == target);
        }
        let slen = stripped.as_str().unicode_len();
        if slen < 4 || slen > 8 {
            return None;
        }
        let mut i: usize = 0;
        while i < slen
            invariant
                0 <= i <= slen,
                slen == stripped@.len(),
                4 <= slen <= 8,
                stripped@ == strip_id_prefix(id@),
                forall|j: int| 0 <= j < i ==> is_id_char(stripped@[j]),
            decreases slen - i,
        {
            let c = stripped.as_str().get_char(i);
            if !(('a' <= c && c <= 'z') || ('A' <= c && c <= 'Z') || ('0' <= c && c <= '9')) {
                return None;
            }
            i = i + 1;
        }
        Some(ID { id: stripped })
    }

    /// The identifier six bytes determine: each byte, reduced below
    /// sixty-two, picks one alphabet character.
    pub fn from_bytes(bytes: &Vec<u8>) -> (r: ID)
        requires
            bytes@.len() == 6,
        ensures
            r@ == id_text_of(bytes@),
            wf_id_seq(r@),
    {
        let mut id = String::new();
        let mut i: usize = 0;
        while i < 6
            invariant
                0 <= i <= 6,
                bytes@.len() == 6,
                id@ == id_text_of(bytes@.take(i as int)),
            decreases 6 - i,
        {
            let v: u8 = bytes[i] % 62;
            let c = alnum_of(v);
            let ghost before = id@;
            crate::strutil::push_char(&mut id, c);
            proof {
                assert(id@ =~= id_text_of(bytes@.take(i as int + 1)));
            }
            i = i + 1;
        }
        proof {
            assert(bytes@.take(6) =~= bytes@);
            assert(forall|v: int| 0 <= v < 62 ==> is_id_char(#[trigger] alnum_char(v)));
        }
        ID { id }
    }

    /// A fresh identifier of six random alphanumeric characters.
    pub fn rand() -> (r: ID)
        ensures
            wf_id_seq(r@),
    {
        let bytes = random_bytes();
        ID::from_bytes(&bytes)
    }

    /// An owned copy with the same identifier text.
    pub fn dup(&self) -> (r: ID)
        ensures
            r == *self,
            r@ == self@,
    {
        let r = ID { id: self.id.clone() };
        proof {
            assert(r.id == self.id);
        }
        r
    }

    /// The identifier text without any prefix.
    pub fn text(&self) -> (r: &str)
        ensures
            r@ == self@,
    {
        self.id.as_str()
    }

    /// The canonical textual form, `id:` followed by the identifier.
    pub fn repr(&self) -> (r: String)
        ensures
            r@ == "id:"@ + self@,
    {
        let mut out = String::from_str("id:");
        out.append(self.id.as_str());
        out
    }
}

} // verus!
