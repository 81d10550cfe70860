use vstd::prelude::*;

use crate::raw::{lemma_node_of_str, lemma_pairs_of, pairs_of, RawNode, RawTree};

verus! {

/// The index of the last `c` in `s`.
pub open spec fn last_index(s: Seq<char>, c: char) -> Option<int>
    decreases s.len(),
{
    if s.len() == 0 {
        None
    } else if s.last() == c {
        Some(s.len() - 1)
    } else {
        last_index(s.drop_last(), c)
    }
}

/// The extension of the file that a URI names: what follows the last `.` of
/// the part after the last `/`; none without either.
pub open spec fn uri_extension(uri: Seq<char>) -> Option<Seq<char>> {
    match last_index(uri, '/') {
        None => None,
        Some(i) => {
            let file = uri.subrange(i + 1, uri.len() as int);
            match last_index(file, '.') {
                None => None,
                Some(j) => Some(file.subrange(j + 1, file.len() as int)),
            }
        },
    }
}

/// The index of the last `c` in `s`.
fn find_last(s: &str, c: char) -> (r: Option<usize>)
    ensures
        match r {
            Some(i) => last_index(s@, c) == Some(i as int) && i < s@.len(),
            None => last_index(s@, c) is None,
        },
{
    let n = s.unicode_len();
    let mut i: usize = n;
    assert(s@.subrange(0, n as int) =~= s@);
    while i > 0
        invariant
            n == s@.len(),
            i <= n,
            last_index(s@, c) == last_index(s@.subrange(0, i as int), c),
        decreases i,
    {
        assert(s@.subrange(0, i as int).drop_last() =~= s@.subrange(0, i - 1));
        if s.get_char(i - 1) == c {
            return Some(i - 1);
        }
        i -= 1;
    }
    None
}

/// The extension of the file that `uri` names; see [`uri_extension`].
pub fn get_uri_extension(uri: &str) -> (r: Option<String>)
    ensures
        match r {
            Some(e) => uri_extension(uri@) == Some(e@),
            None => uri_extension(uri@) is None,
        },
{
    let n = uri.unicode_len();
    match find_last(uri, '/') {
        None => None,
        Some(i) => {
            let file = uri.substring_char(i + 1, n);
            let m = file.unicode_len();
            match find_last(file, '.') {
                None => None,
                Some(j) => Some(file.substring_char(j + 1, m).to_owned()),
            }
        },
    }
}

/// A format that an imported document can be read in.
#[derive(Debug)]
pub enum ImportFormat {
    Json,
    Yaml,
}

/// What a mapping asks of the preprocessor.
#[derive(Debug)]
pub enum Directive {
    /// An ordinary mapping.
    Plain,
    /// Replace the mapping by the document at `uri`, read in `format`.
    Import { uri: String, format: ImportFormat },
    /// Replace the mapping by the text at `uri`.
    Include { uri: String },
}

/// Why a directive cannot be followed.
#[derive(Debug)]
pub enum DirectiveError {
    /// The URI of a directive is no string.
    UriNotString,
    /// The imported file has an extension that no reader handles.
    UnknownExtension { ext: String },
    /// The imported file has no extension.
    MissingExtension,
}

/// A cursor over the entries of a mapping that can look at the next key
/// without consuming it.
pub struct PeekableMapAccess<'a> {
    entries: &'a Vec<(RawTree, RawTree)>,
    pos: usize,
}

impl<'a> PeekableMapAccess<'a> {
    /// The entries that the cursor walks.
    pub closed spec fn entries(&self) -> Seq<(RawTree, RawTree)> {
        self.entries@
    }

    /// The index of the next entry.
    pub closed spec fn pos(&self) -> nat {
        self.pos as nat
    }

    /// A cursor at the first entry of `entries`.
    pub fn new(entries: &'a Vec<(RawTree, RawTree)>) -> (r: PeekableMapAccess<'a>)
        ensures
            r.entries() == entries@,
            r.pos() == 0,
    {
        PeekableMapAccess { entries, pos: 0 }
    }

    /// The key of the next entry, left in place; none at the end.
    pub fn peek_key(&self) -> (r: Option<&'a RawTree>)
        ensures
            match r {
                Some(k) => self.pos() < self.entries().len() && *k == self.entries()[self.pos() as int].0,
                None => self.pos() >= self.entries().len(),
            },
    {
        if self.pos < self.entries.len() {
            Some(&self.entries[self.pos].0)
        } else {
            None
        }
    }

    /// The next entry, consumed; none at the end.
    pub fn next_entry(&mut self) -> (r: Option<(&'a RawTree, &'a RawTree)>)
        ensures
            final(self).entries() == old(self).entries(),
            match r {
                Some(e) => old(self).pos() < old(self).entries().len()
                    && *e.0 == old(self).entries()[old(self).pos() as int].0
                    && *e.1 == old(self).entries()[old(self).pos() as int].1
                    && final(self).pos() == old(self).pos() + 1,
                None => old(self).pos() >= old(self).entries().len() && final(self).pos() == old(self).pos(),
            },
    {
        if self.pos < self.entries.len() {
            let e = &self.entries[self.pos];
            self.pos = self.pos + 1;
            Some((&e.0, &e.1))
        } else {
            None
        }
    }
}

/// The key that marks an import.
pub open spec fn import_key() -> Seq<char> {
    seq!['$', 'i', 'm', 'p', 'o', 'r', 't']
}

/// The key that marks an include.
pub open spec fn include_key() -> Seq<char> {
    seq!['$', 'i', 'n', 'c', 'l', 'u', 'd', 'e']
}

/// The model of a [`Directive`]; an import records whether it reads JSON.
pub ghost enum DirectiveModel {
    Plain,
    Import { uri: Seq<char>, json: bool },
    Include { uri: Seq<char> },
}

/// The model of a [`DirectiveError`].
pub ghost enum DirectiveErr {
    UriNotString,
    UnknownExtension { ext: Seq<char> },
    MissingExtension,
}

/// The directive that a tree holds: a mapping whose first key is `$import`
/// or `$include` asks for the document, or the text, at the URI that is that
/// entry's value; an import is read as JSON for a `json` file and as YAML for
/// a `yaml` or `yml` file.
pub open spec fn directive_of(t: RawNode) -> Result<DirectiveModel, DirectiveErr> {
    match t {
        RawNode::Mapping(es) => if es.len() > 0 && es[0].0 == RawNode::Str(include_key()) {
            match es[0].1 {
                RawNode::Str(uri) => Ok(DirectiveModel::Include { uri }),
                _ => Err(DirectiveErr::UriNotString),
            }
        } else if es.len() > 0 && es[0].0 == RawNode::Str(import_key()) {
            match es[0].1 {
                RawNode::Str(uri) => match uri_extension(uri) {
                    None => Err(DirectiveErr::MissingExtension),
                    Some(ext) => if ext == seq!['j', 's', 'o', 'n'] {
                        Ok(DirectiveModel::Import { uri, json: true })
                    } else if ext == seq!['y', 'a', 'm', 'l'] || ext == seq!['y', 'm', 'l'] {
                        Ok(DirectiveModel::Import { uri, json: false })
                    } else {
                        Err(DirectiveErr::UnknownExtension { ext })
                    },
                },
                _ => Err(DirectiveErr::UriNotString),
            }
        } else {
            Ok(DirectiveModel::Plain)
        },
        _ => Ok(DirectiveModel::Plain),
    }
}

impl View for Directive {
    type V = DirectiveModel;

    open spec fn view(&self) -> DirectiveModel {
        match self {
            Directive::Plain => DirectiveModel::Plain,
            Directive::Import { uri, format } => DirectiveModel::Import { uri: uri@, json: *format is Json },
            Directive::Include { uri } => DirectiveModel::Include { uri: uri@ },
        }
    }
}

impl View for DirectiveError {
    type V = DirectiveErr;

    open spec fn view(&self) -> DirectiveErr {
        match self {
            DirectiveError::UriNotString => DirectiveErr::UriNotString,
            DirectiveError::UnknownExtension { ext } => DirectiveErr::UnknownExtension { ext: ext@ },
            DirectiveError::MissingExtension => DirectiveErr::MissingExtension,
        }
    }
}

/// Finds the import and include directives in a document before it is bound.
pub struct Preprocessor<'a> {
    tree: &'a RawTree,
}

impl<'a> Preprocessor<'a> {
    /// The tree that is examined.
    pub closed spec fn tree(&self) -> RawTree {
        *self.tree
    }

    /// A preprocessor for `tree`.
    pub fn new(tree: &'a RawTree) -> (r: Preprocessor<'a>)
        ensures
            r.tree() == *tree,
    {
        Preprocessor { tree }
    }

    /// The directive that the tree holds; see [`directive_of`].
    pub fn directive(&self) -> (r: Result<Directive, DirectiveError>)
        ensures
            match r {
                Ok(d) => directive_of(self.tree()@) == Ok::<DirectiveModel, DirectiveErr>(d@),
                Err(e) => directive_of(self.tree()@) == Err::<DirectiveModel, DirectiveErr>(e@),
            },
    {
        let es = match self.tree {
            RawTree::Mapping(es) => es,
            _ => {
                return Ok(Directive::Plain);
            },
        };
        proof {
            lemma_pairs_of(es@);
            reveal_strlit("$import");
            reveal_strlit("$include");
            reveal_strlit("json");
            reveal_strlit("yaml");
            reveal_strlit("yml");
        }
        let mut access = PeekableMapAccess::new(es);
        let key = match access.peek_key() {
            Some(RawTree::Str(k)) => k,
            Some(other) => {
                proof {
                    lemma_node_of_str(*other);
                }
                return Ok(Directive::Plain);
            },
            None => {
                return Ok(Directive::Plain);
            },
        };
        proof {
            lemma_node_of_str(es@[0].0);
        }
        let text_key = String::from_str("$include");
        let import_str = String::from_str("$import");
        assert(text_key@ =~= include_key());
        assert(import_str@ =~= import_key());
        let wants_text = *key == text_key;
        let import = *key == import_str;
        if !wants_text && !import {
            return Ok(Directive::Plain);
        }
        let uri = match access.next_entry() {
            Some((_, RawTree::Str(u))) => u,
            Some((_, other)) => {
                proof {
                    lemma_node_of_str(*other);
                }
                return Err(DirectiveError::UriNotString);
            },
            None => {
                return Err(DirectiveError::UriNotString);
            },
        };
        proof {
            lemma_node_of_str(es@[0].1);
        }
        if wants_text {
            return Ok(Directive::Include { uri: uri.clone() });
        }
        match get_uri_extension(uri.as_str()) {
            None => Err(DirectiveError::MissingExtension),
            Some(ext) => {
                let json = String::from_str("json");
                let yaml = String::from_str("yaml");
                let yml = String::from_str("yml");
                assert(json@ =~= seq!['j', 's', 'o', 'n']);
                assert(yaml@ =~= seq!['y', 'a', 'm', 'l']);
                assert(yml@ =~= seq!['y', 'm', 'l']);
                if ext == json {
                    Ok(Directive::Import { uri: uri.clone(), format: ImportFormat::Json })
                } else if ext == yaml || ext == yml {
                    Ok(Directive::Import { uri: uri.clone(), format: ImportFormat::Yaml })
                } else {
                    Err(DirectiveError::UnknownExtension { ext })
                }
            },
        }
    }
}

} // verus!
