//! The colormaps a view can be drawn with, and the order in which they cycle.
use vstd::prelude::*;

verus! {

/// Available colormap types.
#[derive(Debug, Clone, Copy, PartialEq, Eq, Structural)]
pub enum ColormapType {
    Viridis,
    Plasma,
    Inferno,
    Magma,
    Coolwarm,
    Turbo,
    GistNcar,
}

/// Number of colormaps.
pub const COLORMAP_COUNT: usize = 7;

/// Position of a colormap in the cycle `ColormapType::ALL`.
pub open spec fn ordinal(c: ColormapType) -> nat {
    match c {
        ColormapType::Viridis => 0,
        ColormapType::Plasma => 1,
        ColormapType::Inferno => 2,
        ColormapType::Magma => 3,
        ColormapType::Coolwarm => 4,
        ColormapType::Turbo => 5,
        ColormapType::GistNcar => 6,
    }
}

/// The colormap at position `i` of the cycle.
pub open spec fn colormap_at(i: nat) -> ColormapType {
    if i == 0 {
        ColormapType::Viridis
    } else if i == 1 {
        ColormapType::Plasma
    } else if i == 2 {
        ColormapType::Inferno
    } else if i == 3 {
        ColormapType::Magma
    } else if i == 4 {
        ColormapType::Coolwarm
    } else if i == 5 {
        ColormapType::Turbo
    } else {
        ColormapType::GistNcar
    }
}

/// The display name of a colormap.
pub open spec fn colormap_name(c: ColormapType) -> Seq<char> {
    match c {
        ColormapType::Viridis => "viridis"@,
        ColormapType::Plasma => "plasma"@,
        ColormapType::Inferno => "inferno"@,
        ColormapType::Magma => "magma"@,
        ColormapType::Coolwarm => "coolwarm"@,
        ColormapType::Turbo => "turbo"@,
        ColormapType::GistNcar => "gist_ncar"@,
    }
}

/// `c` advanced `k` steps through the cycle.
#[verifier::opaque]
pub open spec fn advance(c: ColormapType, k: nat) -> ColormapType
    decreases k,
{
    if k == 0 {
        c
    } else {
        colormap_at(((ordinal(advance(c, (k - 1) as nat)) + 1) % 7) as nat)
    }
}

impl ColormapType {
    /// The colormaps in cycling order.
    pub const ALL: [ColormapType; 7] = [
        ColormapType::Viridis,
        ColormapType::Plasma,
        ColormapType::Inferno,
        ColormapType::Magma,
        ColormapType::Coolwarm,
        ColormapType::Turbo,
        ColormapType::GistNcar,
    ];

    /// Position of the colormap in `ALL`.
    fn position(&self) -> (i: usize)
        ensures
            i == ordinal(*self),
    {
        match self {
            ColormapType::Viridis => 0,
            ColormapType::Plasma => 1,
            ColormapType::Inferno => 2,
            ColormapType::Magma => 3,
            ColormapType::Coolwarm => 4,
            ColormapType::Turbo => 5,
            ColormapType::GistNcar => 6,
        }
    }

    /// The colormap at a position of `ALL`.
    fn at(i: usize) -> (c: ColormapType)
        requires
            i < COLORMAP_COUNT,
        ensures
            c == colormap_at(i as nat),
    {
        let all = ColormapType::ALL;
        all[i]
    }

    pub fn name(&self) -> (r: &'static str)
        ensures
            r@ == colormap_name(*self),
    {
        match self {
            ColormapType::Viridis => "viridis",
            ColormapType::Plasma => "plasma",
            ColormapType::Inferno => "inferno",
            ColormapType::Magma => "magma",
            ColormapType::Coolwarm => "coolwarm",
            ColormapType::Turbo => "turbo",
            ColormapType::GistNcar => "gist_ncar",
        }
    }

    /// The colormap after this one in `ALL`, wrapping around.
    pub fn next(&self) -> (r: ColormapType)
        ensures
            r == colormap_at(((ordinal(*self) + 1) % 7) as nat),
    {
        let idx = self.position();
        ColormapType::at((idx + 1) % COLORMAP_COUNT)
    }

    /// The colormap before this one in `ALL`, wrapping around.
    pub fn prev(&self) -> (r: ColormapType)
        ensures
            r == colormap_at(((ordinal(*self) + 6) % 7) as nat),
    {
        let idx = self.position();
        ColormapType::at((idx + COLORMAP_COUNT - 1) % COLORMAP_COUNT)
    }
}

/// Law: `prev` undoes `next`, and `next` undoes `prev`.
pub proof fn law_next_prev_inverse(c: ColormapType)
    ensures
        colormap_at(((ordinal(colormap_at(((ordinal(c) + 1) % 7) as nat)) + 6) % 7) as nat) == c,
        colormap_at(((ordinal(colormap_at(((ordinal(c) + 6) % 7) as nat)) + 1) % 7) as nat) == c,
{
}

/// `advance` moves `k` positions along the cycle.
proof fn lemma_advance(c: ColormapType, k: nat)
    ensures
        advance(c, k) == colormap_at(((ordinal(c) + k) % 7) as nat),
    decreases k,
{
    reveal(advance);
    if k > 0 {
        lemma_advance(c, (k - 1) as nat);
        let i = ((ordinal(c) + k - 1) % 7) as nat;
        assert(ordinal(colormap_at(i)) == i);
        assert((i + 1) % 7 == (ordinal(c) + k) % 7) by {
            assert(ordinal(c) + k == ordinal(c) + (k - 1) + 1);
        }
    }
}

/// Law: cycling with `next` returns to the start after exactly `COLORMAP_COUNT` steps, and
/// meets every colormap on the way.
pub proof fn law_next_cycles_through_all(c: ColormapType, d: ColormapType)
    ensures
        advance(c, 7) == c,
        forall|k: nat| 0 < k < 7 ==> #[trigger] advance(c, k) != c,
        exists|k: nat| k < 7 && #[trigger] advance(c, k) == d,
{
    lemma_advance(c, 7);
    assert(colormap_at(ordinal(c)) == c);
    assert forall|k: nat| 0 < k < 7 implies #[trigger] advance(c, k) != c by {
        lemma_advance(c, k);
        let i = ((ordinal(c) + k) % 7) as nat;
        assert(i != ordinal(c));
        assert(ordinal(colormap_at(i)) == i);
    }
    let k = ((ordinal(d) + 7 - ordinal(c)) % 7) as nat;
    lemma_advance(c, k);
    assert(((ordinal(c) + k) % 7) as nat == ordinal(d));
    assert(advance(c, k) == d);
}

/// Law: the colormaps have distinct names.
pub proof fn law_names_distinct(c: ColormapType, d: ColormapType)
    ensures
        c != d ==> colormap_name(c) != colormap_name(d),
{
    reveal_strlit("viridis");
    reveal_strlit("plasma");
    reveal_strlit("inferno");
    reveal_strlit("magma");
    reveal_strlit("coolwarm");
    reveal_strlit("turbo");
    reveal_strlit("gist_ncar");
    if c != d && colormap_name(c) == colormap_name(d) {
        assert(colormap_name(c)[0] == colormap_name(d)[0]);
        assert(colormap_name(c).len() == colormap_name(d).len());
        assert(colormap_name(c)[1] == colormap_name(d)[1]);
    }
}

} // verus!
