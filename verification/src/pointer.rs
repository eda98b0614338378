//! JSON Pointers (RFC 6901) into a schema document, rendered as URI fragments.

use vstd::prelude::*;


verus! {

/// One reference token with `~` spelled `~0` and `/` spelled `~1`.
pub open spec fn escape_token(s: Seq<char>) -> Seq<char>
    decreases s.len(),
{
    if s.len() == 0 {
        Seq::empty()
    } else {
        let c = s.last();
        let rest = escape_token(s.drop_last());
        if c == '~' {
            rest + seq!['~', '0']
        } else if c == '/' {
            rest + seq!['~', '1']
        } else {
            rest.push(c)
        }
    }
}

/// The pointer body: each token preceded by `/`.
pub open spec fn pointer_body(tokens: Seq<Seq<char>>) -> Seq<char>
    decreases tokens.len(),
{
    if tokens.len() == 0 {
        Seq::empty()
    } else {
        pointer_body(tokens.drop_last()) + seq!['/'] + escape_token(tokens.last())
    }
}

/// The rendered fragment: `#` followed by the pointer body.
pub open spec fn render_pointer(tokens: Seq<Seq<char>>) -> Seq<char> {
    seq!['#'] + pointer_body(tokens)
}

/// A location inside a schema document, as a list of unescaped reference tokens.
#[derive(Clone, Debug, PartialEq, Eq)]
pub struct JsonPointer {
    tokens: Vec<String>,
}

impl JsonPointer {
    /// The reference tokens, root first.
    pub closed spec fn tokens(&self) -> Seq<Seq<char>> {
        self.tokens@.map_values(|t: String| t@)
    }

    /// The pointer to the whole document.
    pub fn root() -> (p: Self)
        ensures
            p.tokens() == Seq::<Seq<char>>::empty(),
    {
        let p = JsonPointer { tokens: Vec::new() };
        assert(p.tokens() =~= Seq::<Seq<char>>::empty());
        p
    }

    /// Appends one token at the deep end.
    pub fn push(&mut self, token: &str)
        ensures
            final(self).tokens() == old(self).tokens().push(token@),
    {
        self.tokens.push(token.to_owned());
        assert(self.tokens() =~= old(self).tokens().push(token@));
    }

    /// Inserts `tokens` (in order) before the existing ones.
    pub fn prepend(&mut self, tokens: &[&str])
        ensures
            final(self).tokens() == tokens@.map_values(|t: &str| t@) + old(self).tokens(),
    {
        let ghost old_tokens = self.tokens();
        let mut i: usize = tokens.len();
        while i > 0
            invariant
                i <= tokens@.len(),
                self.tokens() == tokens@.subrange(i as int, tokens@.len() as int).map_values(|t: &str| t@) + old_tokens,
            decreases i,
        {
            i = i - 1;
            let ghost before = self.tokens();
            self.tokens.insert(0, tokens[i].to_owned());
            assert(self.tokens() =~= seq![tokens@[i as int]@] + before);
            assert(tokens@.subrange(i as int, tokens@.len() as int).map_values(|t: &str| t@)
                =~= seq![tokens@[i as int]@] + tokens@.subrange(i + 1, tokens@.len() as int).map_values(|t: &str| t@));
        }
        assert(tokens@.subrange(0, tokens@.len() as int) =~= tokens@);
    }

    /// The URI-fragment spelling of the pointer, e.g. `#/properties/a~1b`.
    pub fn render(&self) -> (s: String)
        ensures
            s@ == render_pointer(self.tokens()),
    {
        let mut out = String::new();
        out.push('#');
        let mut i: usize = 0;
        while i < self.tokens.len()
            invariant
                i <= self.tokens@.len(),
                out@ == seq!['#'] + pointer_body(self.tokens().take(i as int)),
            decreases self.tokens@.len() - i,
        {
            out.push('/');
            push_escaped(&mut out, self.tokens[i].as_str());
            assert(self.tokens().take(i + 1).drop_last() =~= self.tokens().take(i as int));
            i = i + 1;
        }
        assert(self.tokens().take(i as int) =~= self.tokens());
        out
    }
}

fn push_escaped(out: &mut String, token: &str)
    ensures
        final(out)@ == old(out)@ + escape_token(token@),
{
    let ghost start = out@;
    let n = token.unicode_len();
    let mut i: usize = 0;
    while i < n
        invariant
            n == token@.len(),
            i <= n,
            out@ == start + escape_token(token@.take(i as int)),
        decreases n - i,
    {
        let c = token.get_char(i);
        assert(token@.take(i + 1).drop_last() =~= token@.take(i as int));
        if c == '~' {
            out.push('~');
            out.push('0');
        } else if c == '/' {
            out.push('~');
            out.push('1');
        } else {
            out.push(c);
        }
        i = i + 1;
    }
    assert(token@.take(n as int) =~= token@);
}

} // verus!
