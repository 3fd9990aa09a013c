//! The randomizer: it checks an image, patches it, places its items anew
//! and writes it back.

use rand::Rng;
use vstd::prelude::*;
use vstd::string::StringExecFns;

use crate::draw::{arranged, pick_one, picked, shuffle, shuffled, Draw, Generator};
use crate::error::NeutopiaError;
use crate::game::chests::{
    applied,
    game_chests,
    lemma_applied_named,
    lemma_applied_none,
    lemma_game_chests_named,
    names_chest,
};
use crate::game::layout::{fits, written, FIRST_RELOCATED_AREA, LAST_RELOCATED_AREA};
use crate::game::{game_of, AreaModel, Chest, GameModel, Neutopia};
use crate::select::{
    lemma_masked_all,
    lemma_masked_is_filter,
    marks,
    masked,
};
use crate::patch::{apply_patches, patch_views, patches_applied};
use crate::rommap::AREA_COUNT;
use crate::text::same_text;
use crate::state::{
    among_area,
    check_models,
    distinct_locations,
    has_check,
    lemma_initial_locks,
    lemma_initial_unique,
    lemma_open_models,
    lemma_other_check_stays,
    lemma_other_item_stays,
    lock_rule,
    locks_ok,
    open_among,
    open_checks,
    with_id,
    Check,
    CheckModel,
    Item,
    LocationId,
    State,
    StateModel,
};
use crate::verify::{md5_of, rom_body, rom_info, valid_size, verify, Region, HEADER_SIZE, ROM_SIZE};

verus! {

/// How the items are placed anew.
#[derive(Clone, Copy, Debug, PartialEq, Eq, Structural)]
pub enum RandoType {
    /// Within each crypt.
    Local,
    /// Over the whole game, behind the gates.
    Global,
    /// Not at all.
    Off,
}

/// The kind of placement that a word names.
pub open spec fn spec_rando_type(word: Seq<char>) -> Option<RandoType> {
    if word == "local"@ {
        Some(RandoType::Local)
    } else if word == "global"@ {
        Some(RandoType::Global)
    } else if word == "none"@ {
        Some(RandoType::Off)
    } else {
        None
    }
}

impl RandoType {
    /// Reads the kind of placement from its name: `local`, `global` or
    /// `none`.
    ///
    /// Fails with `InvalidRandoType` for any other word.
    pub fn parse(word: &str) -> (r: Result<RandoType, NeutopiaError>)
        ensures
            match spec_rando_type(word@) {
                Some(ty) => r == Ok::<RandoType, NeutopiaError>(ty),
                None => r == Err::<RandoType, NeutopiaError>(NeutopiaError::InvalidRandoType),
            },
    {
        if same_text(word, "local") {
            Ok(RandoType::Local)
        } else if same_text(word, "global") {
            Ok(RandoType::Global)
        } else if same_text(word, "none") {
            Ok(RandoType::Off)
        } else {
            Err(NeutopiaError::InvalidRandoType)
        }
    }
}

impl std::str::FromStr for RandoType {
    type Err = NeutopiaError;

    /// Reads the kind of placement from its name, as `RandoType::parse`
    /// does.
    fn from_str(word: &str) -> (r: Result<RandoType, NeutopiaError>)
        ensures
            match spec_rando_type(word@) {
                Some(ty) => r == Ok::<RandoType, NeutopiaError>(ty),
                None => r == Err::<RandoType, NeutopiaError>(NeutopiaError::InvalidRandoType),
            },
    {
        RandoType::parse(word)
    }
}

/// What to do with an image.
#[derive(Debug)]
pub struct Config {
    pub ty: RandoType,
    pub seed: Option<String>,
}

/// A randomized image with the name of the seed that it came from.
pub struct RandomizedGame {
    pub seed: String,
    pub data: Vec<u8>,
}

/// Draws a seed with `rand::thread_rng`. Nothing is claimed of the number.
#[verifier::external_body]
fn random_seed() -> u64 {
    rand::thread_rng().gen()
}

/// The value of a digit of base 36: the ten figures, then the letters,
/// small or capital, from ten on.
pub open spec fn base36_value(c: char) -> Option<nat> {
    if '0' <= c <= '9' {
        Some((c as nat - 48) as nat)
    } else if 'a' <= c <= 'z' {
        Some((c as nat - 87) as nat)
    } else if 'A' <= c <= 'Z' {
        Some((c as nat - 55) as nat)
    } else {
        None
    }
}

/// The number that digits of base 36 stand for, the highest first, or
/// `None` where one of them is no digit.
pub open spec fn digits_value(digits: Seq<char>) -> Option<nat>
    decreases digits.len(),
{
    if digits.len() == 0 {
        Some(0)
    } else {
        match (digits_value(digits.drop_last()), base36_value(digits.last())) {
            (Some(v), Some(d)) => Some(v * 36 + d),
            _ => None,
        }
    }
}

/// The number that a seed name stands for: at least one digit of base 36,
/// with or without a `+` before them, that make a number of 64 bits. Any
/// other text stands for none.
pub open spec fn seed_value(text: Seq<char>) -> Option<u64> {
    let digits = if text.len() > 0 && text[0] == '+' {
        text.skip(1)
    } else {
        text
    };
    if digits.len() == 0 {
        None
    } else {
        match digits_value(digits) {
            Some(v) => if v <= u64::MAX {
                Some(v as u64)
            } else {
                None
            },
            None => None,
        }
    }
}

/// Reads a seed name with `u64::from_str_radix` in base 36, which takes
/// an optional `+` and then digits only, the letters in either case, and
/// fails on an empty text, on any other character and on a number that no
/// `u64` holds.
#[verifier::external_body]
fn parse_seed(text: &str) -> (r: Option<u64>)
    ensures
        r == seed_value(text@),
{
    u64::from_str_radix(text, 36).ok()
}

/// Reads the name of a seed: a number in base 36.
///
/// Fails with `InvalidSeed` where the text is no such number of 64 bits.
pub fn seed_from_name(name: &str) -> (r: Result<u64, NeutopiaError>)
    ensures
        match seed_value(name@) {
            Some(seed) => r == Ok::<u64, NeutopiaError>(seed),
            None => r == Err::<u64, NeutopiaError>(NeutopiaError::InvalidSeed),
        },
{
    match parse_seed(name) {
        Some(seed) => Ok(seed),
        None => Err(NeutopiaError::InvalidSeed),
    }
}

/// The digit of base 36 with value `d`, a letter in upper case from ten on.
pub open spec fn base36_digit(d: nat) -> char {
    if d < 10 {
        (48 + d) as char
    } else {
        (55 + d) as char
    }
}

/// The text of `n` in base 36, without leading zeros.
pub open spec fn base36(n: nat) -> Seq<char>
    decreases n,
{
    if n < 36 {
        seq![base36_digit(n)]
    } else {
        base36(n / 36).push(base36_digit(n % 36))
    }
}

/// The digits that write a number stand for that number.
pub proof fn lemma_base36_digits(n: nat)
    ensures
        base36(n).len() > 0,
        base36(n)[0] != '+',
        digits_value(base36(n)) == Some(n),
    decreases n,
{
    if n < 36 {
        assert(base36(n).drop_last() =~= Seq::<char>::empty());
        assert(digits_value(Seq::<char>::empty()) == Some(0nat));
        assert(base36_value(base36_digit(n)) == Some(n));
    } else {
        lemma_base36_digits(n / 36);
        assert(base36(n).drop_last() =~= base36(n / 36));
        assert(base36(n).last() == base36_digit(n % 36));
        assert(base36_value(base36_digit(n % 36)) == Some(n % 36));
        assert(base36(n)[0] == base36(n / 36)[0]);
        assert((n / 36) * 36 + n % 36 == n);
    }
}

/// The name written for a seed reads back as the seed.
pub proof fn lemma_seed_name_reads_back(seed: u64)
    ensures
        seed_value(base36(seed as nat)) == Some(seed),
{
    lemma_base36_digits(seed as nat);
}

/// Writes a seed in base 36 with `radix_fmt::radix_36` in its alternate
/// form, which takes the digits from ten on as upper case letters and
/// writes no leading zero.
#[verifier::external_body]
fn seed_name(seed: u64) -> (name: String)
    ensures
        name@ == base36(seed as nat),
{
    format!("{:#}", radix_fmt::radix_36(seed))
}

/// The first crypt.
pub const FIRST_CRYPT: u8 = 0x4;

/// The last crypt.
pub const LAST_CRYPT: u8 = 0xb;

/// The first item id past the medallions.
pub const PAST_MEDALLIONS: u8 = 0x1a;

/// Whether a chest stands in `area` and holds no medallion.
pub open spec fn crypt_chest(c: Chest, area: u8) -> bool {
    c.area == area && (c.info.item_id < crate::state::MEDALLION_ID || c.info.item_id
        >= PAST_MEDALLIONS)
}

/// The chests of `area` that are shuffled, in the order of `game_chests`.
pub open spec fn crypt_chests(areas: Seq<AreaModel>, area: u8) -> Seq<Chest> {
    game_chests(areas, AREA_COUNT as nat).filter(|c: Chest| crypt_chest(c, area))
}

/// The contents of a list of chests.
pub open spec fn infos_of(chests: Seq<Chest>) -> Seq<crate::rom::Chest> {
    chests.map_values(|c: Chest| c.info)
}

/// The chests of a list, each with the content that `infos` gives it.
pub open spec fn with_infos(chests: Seq<Chest>, infos: Seq<crate::rom::Chest>) -> Seq<Chest> {
    Seq::new(
        chests.len(),
        |i: int|
            Chest {
                info: infos[i],
                area: chests[i].area,
                room: chests[i].room,
                index: chests[i].index,
            },
    )
}

/// Whether `after` is `before` with `infos`, which are the contents of the
/// shuffled chests of `area` in some order, written into those chests.
pub open spec fn shuffle_of(
    before: Seq<AreaModel>,
    after: Seq<AreaModel>,
    area: u8,
    infos: Seq<crate::rom::Chest>,
) -> bool {
    let chests = crypt_chests(before, area);
    &&& infos.to_multiset() == infos_of(chests).to_multiset()
    &&& applied(before, with_infos(chests, infos), chests.len()) == Some(after)
}

/// Whether `after` is `before` with the contents of the shuffled chests of
/// `area` permuted among them.
pub open spec fn crypt_shuffled(before: Seq<AreaModel>, after: Seq<AreaModel>, area: u8) -> bool {
    exists|infos: Seq<crate::rom::Chest>| #[trigger] shuffle_of(before, after, area, infos)
}

/// Whether each member of the chain comes from the one before it by
/// shuffling one crypt: the first crypt first, and so on.
pub open spec fn shuffle_chain(chain: Seq<Seq<AreaModel>>) -> bool {
    forall|i: int|
        0 <= i < chain.len() - 1 ==> crypt_shuffled(
            #[trigger] chain[i],
            chain[i + 1],
            (FIRST_CRYPT + i) as u8,
        )
}

/// Whether `end` comes from `start` by shuffling the first `count` crypts,
/// one after the other.
pub open spec fn crypts_shuffled(start: Seq<AreaModel>, end: Seq<AreaModel>, count: nat) -> bool {
    exists|chain: Seq<Seq<AreaModel>>| #[trigger]
        shuffle_chain(chain) && chain.len() == count + 1 && chain[0] == start && chain[
            count as int
        ] == end
}

/// Whether `after` is the game `before` with every crypt shuffled.
pub open spec fn crypt_outcome(before: GameModel, after: GameModel) -> bool {
    &&& after.conditionals == before.conditionals
    &&& after.rom_data == before.rom_data
    &&& after.rom == before.rom
    &&& after.wf()
    &&& crypts_shuffled(before.areas, after.areas, (LAST_CRYPT - FIRST_CRYPT + 1) as nat)
}

/// What shuffling the crypts of `game` and writing the image may give: the
/// image of a game with every crypt shuffled, or `ImageTooLarge` where such
/// a game does not fit.
pub open spec fn crypt_result(game: GameModel, r: Result<Vec<u8>, NeutopiaError>) -> bool {
    match r {
        Ok(out) => exists|g: GameModel| #[trigger]
            crypt_outcome(game, g) && fits(
                g,
                FIRST_RELOCATED_AREA as int,
                LAST_RELOCATED_AREA as int,
            ) && out@ == written(g, FIRST_RELOCATED_AREA as int, LAST_RELOCATED_AREA as int),
        Err(e) => e == NeutopiaError::ImageTooLarge && exists|g: GameModel| #[trigger]
            crypt_outcome(game, g) && !fits(
                g,
                FIRST_RELOCATED_AREA as int,
                LAST_RELOCATED_AREA as int,
            ),
    }
}

/// The areas after the crypt `area` was shuffled by a generator made from
/// `seed` that has answered `past`: the contents of its shuffled chests
/// stand in the order that the generator gives them.
pub open spec fn crypt_step(areas: Seq<AreaModel>, seed: u64, past: Seq<Draw>, area: u8) -> Seq<
    AreaModel,
> {
    let chests = crypt_chests(areas, area);
    let infos = arranged(infos_of(chests), shuffled(seed, past, chests.len()));
    match applied(areas, with_infos(chests, infos), chests.len()) {
        Some(after) => after,
        None => areas,
    }
}

/// The areas after the crypts from `area` on were shuffled, one after the
/// other, and what the generator has answered by then.
pub open spec fn crypts_from(areas: Seq<AreaModel>, seed: u64, past: Seq<Draw>, area: int) -> (
    Seq<AreaModel>,
    Seq<Draw>,
)
    decreases LAST_CRYPT + 1 - area,
{
    if area > LAST_CRYPT {
        (areas, past)
    } else {
        crypts_from(
            crypt_step(areas, seed, past, area as u8),
            seed,
            past.push(Draw::Shuffle(crypt_chests(areas, area as u8).len())),
            area + 1,
        )
    }
}

/// The image of `game` with every crypt shuffled by a generator made from
/// `seed` that has answered `past`, or `ImageTooLarge` where the shuffled
/// game does not fit.
pub open spec fn crypt_image(seed: u64, past: Seq<Draw>, game: GameModel) -> Result<
    Seq<u8>,
    NeutopiaError,
> {
    image_of(
        GameModel {
            areas: crypts_from(game.areas, seed, past, FIRST_CRYPT as int).0,
            conditionals: game.conditionals,
            rom_data: game.rom_data,
            rom: game.rom,
        },
    )
}

/// What the generator has answered after the crypts of an image were
/// shuffled: nothing new where the game cannot be read.
pub open spec fn crypt_answered(seed: u64, past: Seq<Draw>, data: Seq<u8>) -> Seq<Draw> {
    match game_of(data) {
        Err(_) => past,
        Ok(game) => crypts_from(game.areas, seed, past, FIRST_CRYPT as int).1,
    }
}

/// Writes the contents `infos` into the chests `chests`, one each, in
/// order.
///
/// Fails with `IncoherentChest` at the first chest that the game does not
/// have; those before it have been written.
pub fn assign_chests(n: &mut Neutopia, chests: &Vec<Chest>, infos: &Vec<crate::rom::Chest>) -> (r:
    Result<(), NeutopiaError>)
    requires
        chests@.len() == infos@.len(),
    ensures
        final(n)@.conditionals == old(n)@.conditionals,
        final(n)@.rom_data == old(n)@.rom_data,
        final(n)@.rom == old(n)@.rom,
        old(n)@.wf() ==> final(n)@.wf(),
        match r {
            Ok(()) => applied(old(n)@.areas, with_infos(chests@, infos@), chests@.len()) == Some(
                final(n)@.areas,
            ),
            Err(e) => e == NeutopiaError::IncoherentChest && applied(
                old(n)@.areas,
                with_infos(chests@, infos@),
                chests@.len(),
            ) is None && exists|k: nat|
                k < chests@.len() && #[trigger] applied(
                    old(n)@.areas,
                    with_infos(chests@, infos@),
                    k,
                ) == Some(final(n)@.areas),
        },
{
    let mut placed: Vec<Chest> = Vec::new();
    let mut i: usize = 0;
    while i < chests.len()
        invariant
            i <= chests@.len(),
            chests@.len() == infos@.len(),
            placed@ == with_infos(chests@, infos@).subrange(0, i as int),
        decreases chests@.len() - i,
    {
        let c = chests[i];
        placed.push(Chest { info: infos[i], area: c.area, room: c.room, index: c.index });
        i = i + 1;
        assert(placed@ =~= with_infos(chests@, infos@).subrange(0, i as int));
    }
    assert(placed@ =~= with_infos(chests@, infos@));
    let ghost areas = n@.areas;
    match n.update_chests(placed.as_slice()) {
        Ok(()) => Ok(()),
        Err(e) => {
            proof {
                let k = choose|k: nat|
                    k < placed@.len() && #[trigger] applied(areas, placed@, k) == Some(
                        n@.areas,
                    ) && applied(areas, placed@, k + 1) is None;
                lemma_applied_none(areas, placed@, k + 1, placed@.len());
            }
            Err(e)
        },
    }
}

/// Shuffles the contents of the chests of one crypt among them.
fn shuffle_crypt(n: &mut Neutopia, rng: &mut Generator, area: u8)
    requires
        old(n)@.wf(),
    ensures
        final(n)@.conditionals == old(n)@.conditionals,
        final(n)@.rom_data == old(n)@.rom_data,
        final(n)@.rom == old(n)@.rom,
        final(n)@.wf(),
        crypt_shuffled(old(n)@.areas, final(n)@.areas, area),
        final(rng).seed() == old(rng).seed(),
        final(rng).past() == old(rng).past().push(
            Draw::Shuffle(crypt_chests(old(n)@.areas, area).len()),
        ),
        final(n)@.areas == crypt_step(old(n)@.areas, old(rng).seed(), old(rng).past(), area),
{
    let pick = |chest: &Chest| -> (keep: bool)
        ensures
            keep == crypt_chest(*chest, area),
        {
            chest.area == area && (chest.info.item_id < crate::state::MEDALLION_ID
                || chest.info.item_id >= PAST_MEDALLIONS)
        };
    let chests = n.filter_chests(pick);
    let ghost all = game_chests(n@.areas, AREA_COUNT as nat);
    proof {
        let keep = choose|keep: Seq<bool>| #[trigger]
            marks(pick, all, keep) && chests@ == masked(all, keep);
        lemma_masked_is_filter(all, keep, |c: Chest| crypt_chest(c, area));
    }
    let mut infos: Vec<crate::rom::Chest> = Vec::new();
    let mut i: usize = 0;
    while i < chests.len()
        invariant
            i <= chests@.len(),
            infos@ == infos_of(chests@).subrange(0, i as int),
        decreases chests@.len() - i,
    {
        infos.push(chests[i].info);
        i = i + 1;
        assert(infos@ =~= infos_of(chests@).subrange(0, i as int));
    }
    assert(infos@ =~= infos_of(chests@));
    shuffle(rng, &mut infos);
    proof {
        vstd::seq_lib::to_multiset_len(infos@);
        vstd::seq_lib::to_multiset_len(infos_of(chests@));
        let placed = with_infos(chests@, infos@);
        assert forall|i: int| 0 <= i < placed.len() implies names_chest(
            n@.areas,
            #[trigger] placed[i],
        ) by {
            assert(chests@.contains(chests@[i]));
            all.lemma_filter_contains_rev(|c: Chest| crypt_chest(c, area), chests@[i]);
            lemma_game_chests_named(n@.areas, AREA_COUNT as nat, chests@[i]);
        }
        lemma_applied_named(n@.areas, placed, placed.len());
    }
    let ghost before = n@.areas;
    match assign_chests(n, &chests, &infos) {
        Ok(()) => {
            assert(shuffle_of(before, n@.areas, area, infos@));
        },
        Err(_) => {
            assert(false);
        },
    }
}

/// Shuffles the items within each crypt and writes the image.
///
/// Fails as the reading of the game fails. Where the game is read, the
/// image written is that of a game with every crypt shuffled; the call
/// fails with `ImageTooLarge` where that game does not fit, and in no
/// other way.
pub fn crypt_rando(rng: &mut Generator, rom_data: &[u8]) -> (r: Result<Vec<u8>, NeutopiaError>)
    requires
        rom_data@.len() < usize::MAX,
    ensures
        final(rng).seed() == old(rng).seed(),
        final(rng).past() == crypt_answered(old(rng).seed(), old(rng).past(), rom_data@),
        game_of(rom_data@) is Err ==> r == Err::<Vec<u8>, NeutopiaError>(game_of(rom_data@)->Err_0),
        game_of(rom_data@) is Ok ==> crypt_result(game_of(rom_data@)->Ok_0, r),
        game_of(rom_data@) is Ok ==> gives(
            r,
            crypt_image(old(rng).seed(), old(rng).past(), game_of(rom_data@)->Ok_0),
        ),
{
    let mut n = match Neutopia::new(rom_data) {
        Ok(n) => n,
        Err(e) => {
            return Err(e);
        },
    };
    let ghost game = n@;
    let ghost mut chain: Seq<Seq<AreaModel>> = seq![n@.areas];
    let mut area: u8 = FIRST_CRYPT;
    while area <= LAST_CRYPT
        invariant
            FIRST_CRYPT <= area <= LAST_CRYPT + 1,
            game_of(rom_data@) == Ok::<GameModel, NeutopiaError>(game),
            n@.wf(),
            n@.conditionals == game.conditionals,
            n@.rom_data == game.rom_data,
            n@.rom == game.rom,
            rng.seed() == old(rng).seed(),
            crypts_from(n@.areas, rng.seed(), rng.past(), area as int) == crypts_from(
                game.areas,
                old(rng).seed(),
                old(rng).past(),
                FIRST_CRYPT as int,
            ),
            shuffle_chain(chain),
            chain.len() == area - FIRST_CRYPT + 1,
            chain[0] == game.areas,
            chain[area - FIRST_CRYPT] == n@.areas,
        decreases LAST_CRYPT + 1 - area,
    {
        shuffle_crypt(&mut n, rng, area);
        proof {
            let longer = chain.push(n@.areas);
            assert forall|i: int| 0 <= i < longer.len() - 1 implies crypt_shuffled(
                #[trigger] longer[i],
                longer[i + 1],
                (FIRST_CRYPT + i) as u8,
            ) by {
                if i < chain.len() - 1 {
                    assert(longer[i] == chain[i] && longer[i + 1] == chain[i + 1]);
                }
            }
            chain = longer;
        }
        area = area + 1;
    }
    assert(crypts_shuffled(game.areas, n@.areas, (LAST_CRYPT - FIRST_CRYPT + 1) as nat));
    assert(crypt_outcome(game, n@));
    let ghost end = n@;
    match n.write() {
        Ok(out) => {
            assert(crypt_outcome(game, end) && fits(
                end,
                FIRST_RELOCATED_AREA as int,
                LAST_RELOCATED_AREA as int,
            ) && out@ == written(end, FIRST_RELOCATED_AREA as int, LAST_RELOCATED_AREA as int));
            Ok(out)
        },
        Err(e) => {
            assert(e == NeutopiaError::ImageTooLarge);
            assert(crypt_outcome(game, end) && !fits(
                end,
                FIRST_RELOCATED_AREA as int,
                LAST_RELOCATED_AREA as int,
            ));
            Err(e)
        },
    }
}

/// The id of the book, which goes to a fixed place.
pub const BOOK_ID: u8 = 0xd;

/// The id of the moss, which goes to a fixed place.
pub const MOSS_ID: u8 = 0x5;

/// The first area whose locked items are placed within it.
pub const FIRST_LOCKED_AREA: u8 = 0x4;

/// The last area whose locked items are placed within it.
pub const LAST_LOCKED_AREA: u8 = 0xf;

/// Where the book goes.
pub open spec fn book_loc() -> LocationId {
    LocationId { area: 0xc, room: 0x9, index: 0x0 }
}

/// Where the moss goes.
pub open spec fn moss_loc() -> LocationId {
    LocationId { area: 0xc, room: 0x11, index: 0x1 }
}

/// Whether an item clears a gate.
pub open spec fn clears_gate(item: Item) -> bool {
    item.info.item_id == 0x2 || item.info.item_id == 0x3 || item.info.item_id == 0xb
        || item.info.item_id == 0xc
}

/// Why the placement fails before anything is drawn, if it does: the pools
/// are of unequal size, or the book or the moss is not there just once, or
/// no check waits at the place of one of them.
pub open spec fn setup_failure(start: StateModel) -> Option<NeutopiaError> {
    let books = with_id(start.items, BOOK_ID);
    let mosses = with_id(start.items, MOSS_ID);
    if !start.balanced() {
        Some(NeutopiaError::UnbalancedCatalog)
    } else if books.len() == 0 {
        Some(NeutopiaError::UnknownItem)
    } else if books.len() > 1 {
        Some(NeutopiaError::AmbiguousItem)
    } else if mosses.len() == 0 {
        Some(NeutopiaError::UnknownItem)
    } else if mosses.len() > 1 {
        Some(NeutopiaError::AmbiguousItem)
    } else if !has_check(start.checks, book_loc()) {
        Some(NeutopiaError::UnknownLocation)
    } else if !has_check(start.checks, moss_loc()) {
        Some(NeutopiaError::UnknownLocation)
    } else {
        None
    }
}

/// The state after the setup: the book and the moss stand at their places.
pub open spec fn set_up_state(start: StateModel) -> StateModel {
    start.placed(with_id(start.items, BOOK_ID)[0], book_loc()).placed(
        with_id(start.items, MOSS_ID)[0],
        moss_loc(),
    )
}

/// The items of a list that are locked to `area`, in order.
pub open spec fn locked_to(items: Seq<Item>, area: u8) -> Seq<Item> {
    items.filter(|it: Item| it.area_lock == Some(area))
}

/// The items of a list that clear a gate, in order.
pub open spec fn gate_items(items: Seq<Item>) -> Seq<Item> {
    items.filter(|it: Item| clears_gate(it))
}

/// A list in the order that a generator gives it.
pub open spec fn shuffled_list(seed: u64, past: Seq<Draw>, items: Seq<Item>) -> Seq<Item> {
    arranged(items, shuffled(seed, past, items.len()))
}

/// How far a placement has come: the state, what the generator has
/// answered, and the failure that has ended the placement, if one has.
pub struct Progress {
    pub state: StateModel,
    pub past: Seq<Draw>,
    pub failure: Option<NeutopiaError>,
}

/// The items of `list` from `i` on, placed one after the other at checks
/// of `area`, whatever their gates: each goes to the check that the
/// generator picks among the checks that wait in the area. Fails with
/// `NoOpenCheck` where none waits there, and as the placement of the item
/// fails.
pub open spec fn place_locked(
    seed: u64,
    m: StateModel,
    past: Seq<Draw>,
    area: u8,
    list: Seq<Item>,
    i: nat,
) -> Progress
    decreases list.len() - i,
{
    if i >= list.len() {
        Progress { state: m, past, failure: None }
    } else {
        let candidates = among_area(m.checks, area);
        let asked = past.push(Draw::Pick(candidates.len()));
        if candidates.len() == 0 {
            Progress { state: m, past: asked, failure: Some(NeutopiaError::NoOpenCheck) }
        } else {
            let loc = candidates[picked(seed, past, candidates.len()) as int].loc();
            match m.place_error(list[i as int], loc) {
                Some(e) => Progress { state: m, past: asked, failure: Some(e) },
                None => place_locked(seed, m.placed(list[i as int], loc), asked, area, list, i + 1),
            }
        }
    }
}

/// The first phase from `area` on: area by area, up to the last, the items
/// that wait and are locked to the area are placed within it.
pub open spec fn place_areas(seed: u64, m: StateModel, past: Seq<Draw>, area: int) -> Progress
    decreases LAST_LOCKED_AREA + 1 - area,
{
    if area > LAST_LOCKED_AREA {
        Progress { state: m, past, failure: None }
    } else {
        let within = place_locked(seed, m, past, area as u8, locked_to(m.items, area as u8), 0);
        if within.failure is Some {
            within
        } else {
            place_areas(seed, within.state, within.past, area + 1)
        }
    }
}

/// The items of `list`, the last first, placed one after the other at
/// open checks: each goes to the check that the generator picks among the
/// checks that are open when its turn comes. Fails with `NoOpenCheck`
/// where none is open, and as the placement of the item fails.
pub open spec fn place_open(seed: u64, m: StateModel, past: Seq<Draw>, list: Seq<Item>) -> Progress
    decreases list.len(),
{
    if list.len() == 0 {
        Progress { state: m, past, failure: None }
    } else {
        let open = open_among(m.checks, m.gates);
        let asked = past.push(Draw::Pick(open.len()));
        if open.len() == 0 {
            Progress { state: m, past: asked, failure: Some(NeutopiaError::NoOpenCheck) }
        } else {
            let loc = open[picked(seed, past, open.len()) as int].loc();
            match m.place_error(list.last(), loc) {
                Some(e) => Progress { state: m, past: asked, failure: Some(e) },
                None => place_open(seed, m.placed(list.last(), loc), asked, list.drop_last()),
            }
        }
    }
}

/// The second phase: the items that clear a gate, shuffled, go to open
/// checks.
pub open spec fn gates_placed(seed: u64, before: Progress) -> Progress {
    if before.failure is Some {
        before
    } else {
        place_open(
            seed,
            before.state,
            before.past.push(Draw::Shuffle(gate_items(before.state.items).len())),
            shuffled_list(seed, before.past, gate_items(before.state.items)),
        )
    }
}

/// The third phase: all the items that still wait, shuffled, go to open
/// checks.
pub open spec fn rest_placed(seed: u64, before: Progress) -> Progress {
    if before.failure is Some {
        before
    } else {
        place_open(
            seed,
            before.state,
            before.past.push(Draw::Shuffle(before.state.items.len())),
            shuffled_list(seed, before.past, before.state.items),
        )
    }
}

/// The three phases in their order, from a state that is set up.
pub open spec fn phases(seed: u64, past: Seq<Draw>, m: StateModel) -> Progress {
    rest_placed(seed, gates_placed(seed, place_areas(seed, m, past, FIRST_LOCKED_AREA as int)))
}

/// The game with the chests that a state has decided written in, or `None`
/// where one of them names no chest of the game.
pub open spec fn end_game(m: StateModel, game: GameModel) -> Option<GameModel> {
    match applied(game.areas, m.assigned, m.assigned.len()) {
        Some(areas) => Some(
            GameModel {
                areas,
                conditionals: game.conditionals,
                rom_data: game.rom_data,
                rom: game.rom,
            },
        ),
        None => None,
    }
}

/// The image of a game with the default areas relocated, or
/// `ImageTooLarge` where it does not fit.
pub open spec fn image_of(g: GameModel) -> Result<Seq<u8>, NeutopiaError> {
    if fits(g, FIRST_RELOCATED_AREA as int, LAST_RELOCATED_AREA as int) {
        Ok(written(g, FIRST_RELOCATED_AREA as int, LAST_RELOCATED_AREA as int))
    } else {
        Err(NeutopiaError::ImageTooLarge)
    }
}

/// The end of a placement: where it has not failed, the chests decided
/// are written into the game, which fails with `IncoherentChest` where one
/// of them is not in the game, and the image of the game is written.
pub open spec fn finished(game: GameModel, before: Progress) -> Result<Seq<u8>, NeutopiaError> {
    match before.failure {
        Some(e) => Err(e),
        None => match end_game(before.state, game) {
            None => Err(NeutopiaError::IncoherentChest),
            Some(g) => image_of(g),
        },
    }
}

/// What the placement gives from the state `start` with a generator made
/// from `seed` that has answered `past`: the failure of the setup, where
/// there is one; else what the three phases and the end give.
pub open spec fn global_image(
    seed: u64,
    past: Seq<Draw>,
    game: GameModel,
    start: StateModel,
) -> Result<Seq<u8>, NeutopiaError> {
    match setup_failure(start) {
        Some(e) => Err(e),
        None => finished(game, phases(seed, past, set_up_state(start))),
    }
}

/// What the generator has answered after the placement from `start`:
/// nothing new where the setup fails, else what the three phases ask.
pub open spec fn global_past(seed: u64, past: Seq<Draw>, start: StateModel) -> Seq<Draw> {
    match setup_failure(start) {
        Some(_) => past,
        None => phases(seed, past, set_up_state(start)).past,
    }
}

/// A placement takes one check and one item out of the pools.
pub proof fn lemma_placed_counts(m: StateModel, item: Item, loc: LocationId)
    requires
        m.place_error(item, loc) is None,
    ensures
        m.placed(item, loc).checks.len() == m.checks.len() - 1,
        m.placed(item, loc).items.len() == m.items.len() - 1,
{
    assert(has_check(m.checks, loc));
    assert(m.items.contains(item));
}

/// Where the items of a list were all placed at open checks, each has
/// taken one check and one item out of the pools.
pub proof fn lemma_place_open_counts(seed: u64, m: StateModel, past: Seq<Draw>, list: Seq<Item>)
    ensures
        place_open(seed, m, past, list).failure is None ==> {
            &&& place_open(seed, m, past, list).state.checks.len() == m.checks.len() - list.len()
            &&& place_open(seed, m, past, list).state.items.len() == m.items.len() - list.len()
        },
    decreases list.len(),
{
    if list.len() > 0 {
        let open = open_among(m.checks, m.gates);
        if open.len() > 0 {
            let loc = open[picked(seed, past, open.len()) as int].loc();
            if m.place_error(list.last(), loc) is None {
                lemma_placed_counts(m, list.last(), loc);
                lemma_place_open_counts(
                    seed,
                    m.placed(list.last(), loc),
                    past.push(Draw::Pick(open.len())),
                    list.drop_last(),
                );
            }
        }
    }
}

/// Placing locked items within their area keeps as many checks as items.
pub proof fn lemma_place_locked_balanced(
    seed: u64,
    m: StateModel,
    past: Seq<Draw>,
    area: u8,
    list: Seq<Item>,
    i: nat,
)
    requires
        m.balanced(),
    ensures
        place_locked(seed, m, past, area, list, i).state.balanced(),
    decreases list.len() - i,
{
    if i < list.len() {
        let candidates = among_area(m.checks, area);
        if candidates.len() > 0 {
            let loc = candidates[picked(seed, past, candidates.len()) as int].loc();
            if m.place_error(list[i as int], loc) is None {
                lemma_placed_counts(m, list[i as int], loc);
                lemma_place_locked_balanced(
                    seed,
                    m.placed(list[i as int], loc),
                    past.push(Draw::Pick(candidates.len())),
                    area,
                    list,
                    i + 1,
                );
            }
        }
    }
}

/// The first phase keeps as many checks as items.
pub proof fn lemma_place_areas_balanced(seed: u64, m: StateModel, past: Seq<Draw>, area: int)
    requires
        m.balanced(),
    ensures
        place_areas(seed, m, past, area).state.balanced(),
    decreases LAST_LOCKED_AREA + 1 - area,
{
    if area <= LAST_LOCKED_AREA {
        let list = locked_to(m.items, area as u8);
        lemma_place_locked_balanced(seed, m, past, area as u8, list, 0);
        let within = place_locked(seed, m, past, area as u8, list, 0);
        if within.failure is None {
            lemma_place_areas_balanced(seed, within.state, within.past, area + 1);
        }
    }
}

/// Where the three phases do not fail, every item is placed and every
/// check has got its item: nothing waits any more.
pub proof fn lemma_phases_place_all(seed: u64, past: Seq<Draw>, m: StateModel)
    requires
        m.balanced(),
    ensures
        phases(seed, past, m).failure is None ==> phases(seed, past, m).state.checks.len() == 0
            && phases(seed, past, m).state.items.len() == 0,
{
    let first = place_areas(seed, m, past, FIRST_LOCKED_AREA as int);
    lemma_place_areas_balanced(seed, m, past, FIRST_LOCKED_AREA as int);
    let second = gates_placed(seed, first);
    if first.failure is None {
        lemma_place_open_counts(
            seed,
            first.state,
            first.past.push(Draw::Shuffle(gate_items(first.state.items).len())),
            shuffled_list(seed, first.past, gate_items(first.state.items)),
        );
        if second.failure is None {
            lemma_place_open_counts(
                seed,
                second.state,
                second.past.push(Draw::Shuffle(second.state.items.len())),
                shuffled_list(seed, second.past, second.state.items),
            );
        }
    }
}

/// Whether `r` is the failure, or holds the bytes, that `want` names.
pub open spec fn gives(
    r: Result<Vec<u8>, NeutopiaError>,
    want: Result<Seq<u8>, NeutopiaError>,
) -> bool {
    match want {
        Ok(bytes) => r is Ok && r->Ok_0@ == bytes,
        Err(e) => r == Err::<Vec<u8>, NeutopiaError>(e),
    }
}

/// The state that a placement on `game` with `catalog` starts from.
pub open spec fn initial_state(game: GameModel, catalog: Seq<CheckModel>) -> StateModel {
    choose|start: StateModel| start.initial(game, catalog)
}

/// What placing the items of `game` anew gives with a catalog and a
/// generator: `DuplicateLocation` for a catalog in which two checks share a
/// location; else what `global_image` says of the state that the placement
/// starts from.
pub open spec fn global_outcome(
    seed: u64,
    past: Seq<Draw>,
    game: GameModel,
    catalog: Seq<CheckModel>,
) -> Result<Seq<u8>, NeutopiaError> {
    if !distinct_locations(catalog) {
        Err(NeutopiaError::DuplicateLocation)
    } else {
        global_image(seed, past, game, initial_state(game, catalog))
    }
}

/// What the generator has answered after the placement on an image:
/// nothing new where the game cannot be read or two checks of the catalog
/// share a location, else what `global_past` says.
pub open spec fn global_answered(
    seed: u64,
    past: Seq<Draw>,
    data: Seq<u8>,
    catalog: Seq<CheckModel>,
) -> Seq<Draw> {
    match game_of(data) {
        Err(_) => past,
        Ok(game) => if !distinct_locations(catalog) {
            past
        } else {
            global_past(seed, past, initial_state(game, catalog))
        },
    }
}

/// Draws one of the open checks and gives its location, or `None` where no
/// check is open.
fn draw_open(state: &State, rng: &mut Generator) -> (r: Option<LocationId>)
    requires
        state@.wf(),
    ensures
        final(rng).seed() == old(rng).seed(),
        final(rng).past() == old(rng).past().push(
            Draw::Pick(open_among(state@.checks, state@.gates).len()),
        ),
        ({
            let open = open_among(state@.checks, state@.gates);
            if open.len() == 0 {
                r is None
            } else {
                r == Some(open[picked(old(rng).seed(), old(rng).past(), open.len()) as int].loc())
            }
        }),
{
    let any = |check: &Check| -> (keep: bool)
        ensures
            keep,
        { true };
    let checks = state.filter_checks(any);
    proof {
        let listed = open_checks(state.pending(), state@.gates);
        let keep = choose|keep: Seq<bool>| #[trigger]
            marks(any, listed, keep) && check_models(checks@) == masked(
                check_models(listed),
                keep,
            );
        lemma_masked_all(check_models(listed), keep);
        lemma_open_models(state.pending(), state@.gates);
        state.lemma_pending();
    }
    match pick_one(rng, &checks) {
        Some(check) => {
            let loc = check.loc();
            proof {
                let k = picked(old(rng).seed(), old(rng).past(), checks@.len()) as int;
                assert(check_models(checks@)[k] == checks@[k]@);
            }
            Some(loc)
        },
        None => None,
    }
}

/// Draws one of the checks of `area`, whatever their gates, and gives its
/// location, or `None` where no check waits in the area.
fn draw_in_area(state: &State, rng: &mut Generator, area: u8) -> (r: Option<LocationId>)
    requires
        state@.wf(),
    ensures
        final(rng).seed() == old(rng).seed(),
        final(rng).past() == old(rng).past().push(
            Draw::Pick(among_area(state@.checks, area).len()),
        ),
        ({
            let candidates = among_area(state@.checks, area);
            if candidates.len() == 0 {
                r is None
            } else {
                r == Some(
                    candidates[picked(
                        old(rng).seed(),
                        old(rng).past(),
                        candidates.len(),
                    ) as int].loc(),
                )
            }
        }),
{
    let here = |check: &Check| -> (keep: bool)
        ensures
            keep == (check.area == area),
        { check.area == area };
    let checks = state.filter_checks_gateless(here);
    proof {
        let keep = choose|keep: Seq<bool>| #[trigger]
            marks(here, state.pending(), keep) && check_models(checks@) == masked(
                check_models(state.pending()),
                keep,
            );
        state.lemma_pending();
        assert forall|j: int| 0 <= j < state@.checks.len() implies keep[j] == ((
        #[trigger] state@.checks[j]).area == area) by {
            assert(state@.checks[j] == state.pending()[j]@);
        }
        lemma_masked_is_filter(state@.checks, keep, |c: CheckModel| c.area == area);
    }
    match pick_one(rng, &checks) {
        Some(check) => {
            let loc = check.loc();
            proof {
                let k = picked(old(rng).seed(), old(rng).past(), checks@.len()) as int;
                assert(check_models(checks@)[k] == checks@[k]@);
            }
            Some(loc)
        },
        None => None,
    }
}

/// Puts the book and the moss at their places.
fn set_up(state: &mut State) -> (r: Result<(), NeutopiaError>)
    requires
        old(state)@.wf(),
        locks_ok(old(state)@.items),
    ensures
        match r {
            Ok(()) => {
                &&& setup_failure(old(state)@) is None
                &&& final(state)@ == set_up_state(old(state)@)
                &&& final(state)@.wf()
                &&& final(state)@.balanced()
                &&& final(state)@.game == old(state)@.game
            },
            Err(e) => setup_failure(old(state)@) == Some(e),
        },
{
    if !state.is_balanced() {
        return Err(NeutopiaError::UnbalancedCatalog);
    }
    let ghost start = state@;
    let book = match state.get_item_by_id(BOOK_ID) {
        Ok(item) => item,
        Err(e) => {
            return Err(e);
        },
    };
    let moss = match state.get_item_by_id(MOSS_ID) {
        Ok(item) => item,
        Err(e) => {
            return Err(e);
        },
    };
    proof {
        start.items.lemma_filter_pred(|it: Item| it.info.item_id == BOOK_ID, 0);
        start.items.lemma_filter_pred(|it: Item| it.info.item_id == MOSS_ID, 0);
        assert(with_id(start.items, BOOK_ID).contains(book));
        assert(with_id(start.items, MOSS_ID).contains(moss));
        start.items.lemma_filter_contains_rev(|it: Item| it.info.item_id == BOOK_ID, book);
        start.items.lemma_filter_contains_rev(|it: Item| it.info.item_id == MOSS_ID, moss);
        assert(start.items.contains(book) && start.items.contains(moss));
        let ib = choose|i: int| 0 <= i < start.items.len() && start.items[i] == book;
        let im = choose|i: int| 0 <= i < start.items.len() && start.items[i] == moss;
        assert(lock_rule(start.items[ib]) && lock_rule(start.items[im]));
    }
    let place = LocationId { area: 0xc, room: 0x9, index: 0x0 };
    match state.place_item_by_loc(book, &place) {
        Ok(()) => {},
        Err(e) => {
            return Err(e);
        },
    }
    let other = LocationId { area: 0xc, room: 0x11, index: 0x1 };
    proof {
        lemma_other_check_stays(start, book, place, other);
        lemma_other_item_stays(start, book, place, moss);
    }
    match state.place_item_by_loc(moss, &other) {
        Ok(()) => {},
        Err(e) => {
            return Err(e);
        },
    }
    Ok(())
}

/// Places the items of `items` from the last on at open checks that the
/// generator picks.
fn place_at_open(state: &mut State, rng: &mut Generator, items: &mut Vec<Item>) -> (r: Result<
    (),
    NeutopiaError,
>)
    requires
        old(state)@.wf(),
        old(state)@.balanced(),
    ensures
        final(rng).seed() == old(rng).seed(),
        final(state)@.wf(),
        final(state)@.balanced(),
        final(state)@.game == old(state)@.game,
        place_open(old(rng).seed(), old(state)@, old(rng).past(), old(items)@) == (Progress {
            state: final(state)@,
            past: final(rng).past(),
            failure: match r {
                Ok(()) => None,
                Err(e) => Some(e),
            },
        }),
{
    while items.len() > 0
        invariant
            rng.seed() == old(rng).seed(),
            state@.wf(),
            state@.balanced(),
            state@.game == old(state)@.game,
            place_open(rng.seed(), state@, rng.past(), items@) == place_open(
                old(rng).seed(),
                old(state)@,
                old(rng).past(),
                old(items)@,
            ),
        decreases items@.len(),
    {
        let ghost before = items@;
        let loc = match draw_open(state, rng) {
            Some(loc) => loc,
            None => {
                return Err(NeutopiaError::NoOpenCheck);
            },
        };
        let item = items.pop().unwrap();
        assert(items@ =~= before.drop_last());
        match state.place_item_by_loc(item, &loc) {
            Ok(()) => {},
            Err(e) => {
                return Err(e);
            },
        }
    }
    Ok(())
}

/// Places every item of a state that is set up and writes the image.
fn place_all(begun: State, rng: &mut Generator, Ghost(game): Ghost<GameModel>) -> (r: Result<
    Vec<u8>,
    NeutopiaError,
>)
    requires
        begun@.wf(),
        begun@.balanced(),
        begun@.game == game,
    ensures
        final(rng).seed() == old(rng).seed(),
        final(rng).past() == phases(old(rng).seed(), old(rng).past(), begun@).past,
        gives(r, finished(game, phases(old(rng).seed(), old(rng).past(), begun@))),
{
    let mut state = begun;
    let ghost seed = rng.seed();
    let ghost first = place_areas(seed, state@, rng.past(), FIRST_LOCKED_AREA as int);
    let mut area: u8 = FIRST_LOCKED_AREA;
    while area <= LAST_LOCKED_AREA
        invariant
            FIRST_LOCKED_AREA <= area <= LAST_LOCKED_AREA + 1,
            seed == old(rng).seed(),
            rng.seed() == seed,
            state@.wf(),
            state@.balanced(),
            state@.game == game,
            first == place_areas(seed, begun@, old(rng).past(), FIRST_LOCKED_AREA as int),
            place_areas(seed, state@, rng.past(), area as int) == first,
        decreases LAST_LOCKED_AREA + 1 - area,
    {
        let locked = |item: &Item| -> (keep: bool)
            ensures
                keep == (item.area_lock == Some(area)),
            {
                match item.area_lock {
                    Some(a) => a == area,
                    None => false,
                }
            };
        let items = state.filter_items(locked);
        proof {
            let keep = choose|keep: Seq<bool>| #[trigger]
                marks(locked, state@.items, keep) && items@ == masked(state@.items, keep);
            lemma_masked_is_filter(state@.items, keep, |it: Item| it.area_lock == Some(area));
        }
        let ghost within = place_locked(seed, state@, rng.past(), area, items@, 0);
        let mut i: usize = 0;
        while i < items.len()
            invariant
                i <= items@.len(),
                FIRST_LOCKED_AREA <= area <= LAST_LOCKED_AREA,
                seed == old(rng).seed(),
                rng.seed() == seed,
                state@.wf(),
                state@.balanced(),
                state@.game == game,
                first == place_areas(seed, begun@, old(rng).past(), FIRST_LOCKED_AREA as int),
                place_locked(seed, state@, rng.past(), area, items@, i as nat) == within,
                first == (if within.failure is Some {
                    within
                } else {
                    place_areas(seed, within.state, within.past, area + 1)
                }),
            decreases items@.len() - i,
        {
            let loc = match draw_in_area(&state, rng, area) {
                Some(loc) => loc,
                None => {
                    return Err(NeutopiaError::NoOpenCheck);
                },
            };
            match state.place_item_by_loc(items[i], &loc) {
                Ok(()) => {},
                Err(e) => {
                    return Err(e);
                },
            }
            i = i + 1;
        }
        area = area + 1;
    }
    let clears = |item: &Item| -> (keep: bool)
        ensures
            keep == clears_gate(*item),
        {
            item.info.item_id == 0x2 || item.info.item_id == 0x3 || item.info.item_id == 0xb
                || item.info.item_id == 0xc
        };
    let mut items = state.filter_items(clears);
    proof {
        let keep = choose|keep: Seq<bool>| #[trigger]
            marks(clears, state@.items, keep) && items@ == masked(state@.items, keep);
        lemma_masked_is_filter(state@.items, keep, |it: Item| clears_gate(it));
    }
    shuffle(rng, &mut items);
    match place_at_open(&mut state, rng, &mut items) {
        Ok(()) => {},
        Err(e) => {
            return Err(e);
        },
    }
    let every = |item: &Item| -> (keep: bool)
        ensures
            keep,
        { true };
    let mut items = state.filter_items(every);
    proof {
        let keep = choose|keep: Seq<bool>| #[trigger]
            marks(every, state@.items, keep) && items@ == masked(state@.items, keep);
        lemma_masked_all(state@.items, keep);
    }
    shuffle(rng, &mut items);
    match place_at_open(&mut state, rng, &mut items) {
        Ok(()) => {},
        Err(e) => {
            return Err(e);
        },
    }
    let ghost end = state@;
    let n = match state.finalize() {
        Ok(n) => n,
        Err(e) => {
            return Err(e);
        },
    };
    proof {
        assert(end_game(end, game) == Some(n@));
    }
    match n.write() {
        Ok(out) => Ok(out),
        Err(e) => Err(e),
    }
}

/// Places every item of the game anew and writes the image.
///
/// The book and the moss go to their fixed places. Then, area by area,
/// the items locked to an area go to checks of that area, whatever their
/// gates. Then the items that clear a gate, shuffled, and after them all
/// the others, shuffled, go to checks that are open when their turn comes.
/// Every check is the one that the generator picks.
///
/// Fails as the reading of the game fails; else the outcome is what
/// `global_outcome` says, a function of the generator, the game and the
/// catalog.
pub fn global_rando(rng: &mut Generator, rom_data: &[u8], catalog: Vec<Check>) -> (r: Result<
    Vec<u8>,
    NeutopiaError,
>)
    requires
        rom_data@.len() < usize::MAX,
    ensures
        final(rng).seed() == old(rng).seed(),
        final(rng).past() == global_answered(
            old(rng).seed(),
            old(rng).past(),
            rom_data@,
            check_models(catalog@),
        ),
        game_of(rom_data@) is Err ==> r == Err::<Vec<u8>, NeutopiaError>(game_of(rom_data@)->Err_0),
        game_of(rom_data@) is Ok ==> gives(
            r,
            global_outcome(
                old(rng).seed(),
                old(rng).past(),
                game_of(rom_data@)->Ok_0,
                check_models(catalog@),
            ),
        ),
{
    let n = match Neutopia::new(rom_data) {
        Ok(n) => n,
        Err(e) => {
            return Err(e);
        },
    };
    let ghost game = n@;
    let ghost cat = check_models(catalog@);
    let mut state = match State::new(n, catalog) {
        Ok(state) => state,
        Err(e) => {
            return Err(e);
        },
    };
    let ghost start = state@;
    proof {
        lemma_initial_locks(start, game, cat);
        lemma_initial_unique(initial_state(game, cat), start, game, cat);
    }
    match set_up(&mut state) {
        Ok(()) => place_all(state, rng, Ghost(game)),
        Err(e) => Err(e),
    }
}

/// The name of a seed: the number in base 36, in upper case.
pub fn name_of_seed(seed: u64) -> (name: String)
    ensures
        name@ == base36(seed as nat),
{
    seed_name(seed)
}

/// The file name for an image made from a seed with the given name.
pub open spec fn spec_file_name(seed: Seq<char>) -> Seq<char> {
    "neutopia-randomizer-"@ + seed + ".pce"@
}

impl RandomizedGame {
    /// The file name for the image.
    pub fn file_name(&self) -> (name: String)
        ensures
            name@ == spec_file_name(self.seed@),
    {
        let mut name = String::from_str("neutopia-randomizer-");
        name.append(self.seed.as_str());
        name.append(".pce");
        name
    }
}

/// The image that the randomizer works on: the body of a known image of
/// the NA region, or why there is none.
pub open spec fn verified_rom(data: Seq<u8>) -> Result<Seq<u8>, NeutopiaError> {
    if !valid_size(data) {
        Err(NeutopiaError::InvalidRomSize)
    } else {
        let info = rom_info(data.len() == ROM_SIZE + HEADER_SIZE, md5_of(rom_body(data)));
        if !info.known {
            Err(NeutopiaError::Unrecognized)
        } else if info.region != Region::NA {
            Err(NeutopiaError::UnsupportedRegion)
        } else {
            Ok(rom_body(data))
        }
    }
}

/// Checks that `data` is the known image of the NA region and takes its
/// header off.
///
/// Fails with `InvalidRomSize` for a wrong size, with `Unrecognized` for an
/// unknown digest, and with `UnsupportedRegion` for a known image of
/// another region.
pub fn verify_rom(data: Vec<u8>) -> (r: Result<Vec<u8>, NeutopiaError>)
    ensures
        match r {
            Ok(body) => verified_rom(data@) == Ok::<Seq<u8>, NeutopiaError>(body@) && body@.len()
                == ROM_SIZE,
            Err(e) => verified_rom(data@) == Err::<Seq<u8>, NeutopiaError>(e),
        },
{
    let info = match verify(data.as_slice()) {
        Ok(info) => info,
        Err(e) => {
            return Err(e);
        },
    };
    if !info.known {
        return Err(NeutopiaError::Unrecognized);
    }
    match info.region {
        Region::NA => {},
        _ => {
            return Err(NeutopiaError::UnsupportedRegion);
        },
    }
    if info.headered {
        Ok(
            vstd::slice::slice_to_vec(
                vstd::slice::slice_subrange(data.as_slice(), HEADER_SIZE, data.len()),
            ),
        )
    } else {
        Ok(data)
    }
}

/// What the randomizer gives: a failure, or the bytes of an image and the
/// name of its seed.
pub type Outcome = Result<(Seq<u8>, Seq<char>), NeutopiaError>;

/// An image, or the failure to make it, under the name of a seed.
pub open spec fn named(image: Result<Seq<u8>, NeutopiaError>, seed: u64) -> Outcome {
    match image {
        Ok(bytes) => Ok((bytes, base36(seed as nat))),
        Err(e) => Err(e),
    }
}

/// What the randomizer gives for an image with a seed: the failure of the
/// checking of the image, else that of the patching, else the patched
/// image as it is, or as the shuffle or the placement leaves it with a
/// generator made from the seed, under the name of the seed.
pub open spec fn randomized(
    ty: RandoType,
    seed: u64,
    data: Seq<u8>,
    patches: Seq<Seq<u8>>,
    catalog: Seq<CheckModel>,
) -> Outcome {
    match verified_rom(data) {
        Err(e) => Err(e),
        Ok(body) => {
            let (patched, done) = patches_applied(body, patches, patches.len());
            match done {
                Err(e) => Err(e),
                Ok(_) => match ty {
                    RandoType::Off => Ok((patched, base36(seed as nat))),
                    RandoType::Local => match game_of(patched) {
                        Err(e) => Err(e),
                        Ok(game) => named(crypt_image(seed, Seq::empty(), game), seed),
                    },
                    RandoType::Global => match game_of(patched) {
                        Err(e) => Err(e),
                        Ok(game) => named(global_outcome(seed, Seq::empty(), game, catalog), seed),
                    },
                },
            }
        },
    }
}

/// Whether `r` is the failure, or holds the image and the name, that
/// `want` names.
pub open spec fn is_outcome(r: Result<RandomizedGame, NeutopiaError>, want: Outcome) -> bool {
    match want {
        Ok((bytes, name)) => r is Ok && r->Ok_0.data@ == bytes && r->Ok_0.seed@ == name,
        Err(e) => r == Err::<RandomizedGame, NeutopiaError>(e),
    }
}

/// Whether two outcomes of the randomizer are the same: the same failure,
/// or the same image, byte for byte, under the same seed name.
pub open spec fn same_outcome(
    a: Result<RandomizedGame, NeutopiaError>,
    b: Result<RandomizedGame, NeutopiaError>,
) -> bool {
    match (a, b) {
        (Ok(x), Ok(y)) => x.data@ == y.data@ && x.seed@ == y.seed@,
        (Err(e), Err(f)) => e == f,
        _ => false,
    }
}

/// Two runs of the randomizer of the same kind, with the same seed, on the
/// same image, with the same patches and the same catalog, give the same
/// outcome: both fail in the same way, or both give the same image, byte
/// for byte, under the same name.
pub proof fn lemma_same_seed_same_outcome(
    ty: RandoType,
    seed: u64,
    data: Seq<u8>,
    patches: Seq<Seq<u8>>,
    catalog: Seq<CheckModel>,
    a: Result<RandomizedGame, NeutopiaError>,
    b: Result<RandomizedGame, NeutopiaError>,
)
    requires
        is_outcome(a, randomized(ty, seed, data, patches, catalog)),
        is_outcome(b, randomized(ty, seed, data, patches, catalog)),
    ensures
        same_outcome(a, b),
{
}

/// Randomizes an image with a given seed.
///
/// The image is checked and its header taken off, the patches are applied
/// in order, and the items are placed anew as `ty` says, by a generator
/// made from the seed. The outcome is a function of what is given.
pub fn randomize_seeded(
    ty: RandoType,
    seed: u64,
    data: &[u8],
    patches: &Vec<Vec<u8>>,
    catalog: Vec<Check>,
) -> (r: Result<RandomizedGame, NeutopiaError>)
    ensures
        is_outcome(r, randomized(ty, seed, data@, patch_views(patches@), check_models(catalog@))),
{
    let mut rng = Generator::new(seed);
    let mut buffer = match verify_rom(vstd::slice::slice_to_vec(data)) {
        Ok(buffer) => buffer,
        Err(e) => {
            return Err(e);
        },
    };
    match apply_patches(&mut buffer, patches) {
        Ok(()) => {},
        Err(e) => {
            return Err(e);
        },
    }
    let new_data = match ty {
        RandoType::Local => match crypt_rando(&mut rng, buffer.as_slice()) {
            Ok(out) => out,
            Err(e) => {
                return Err(e);
            },
        },
        RandoType::Global => match global_rando(&mut rng, buffer.as_slice(), catalog) {
            Ok(out) => out,
            Err(e) => {
                return Err(e);
            },
        },
        RandoType::Off => buffer,
    };
    Ok(RandomizedGame { seed: name_of_seed(seed), data: new_data })
}

/// Randomizes an image.
///
/// The seed is the one that the configuration names in base 36, or a
/// random one where it names none.
///
/// Fails with `InvalidSeed` where the name of the seed is no number of 64
/// bits in base 36; else the outcome is that of `randomize_seeded` with
/// the seed.
pub fn randomize(config: &Config, data: &[u8], patches: &Vec<Vec<u8>>, catalog: Vec<Check>) -> (r:
    Result<RandomizedGame, NeutopiaError>)
    ensures
        match config.seed {
            Some(name) => match seed_value(name@) {
                Some(seed) => is_outcome(
                    r,
                    randomized(
                        config.ty,
                        seed,
                        data@,
                        patch_views(patches@),
                        check_models(catalog@),
                    ),
                ),
                None => r == Err::<RandomizedGame, NeutopiaError>(NeutopiaError::InvalidSeed),
            },
            None => exists|seed: u64|
                is_outcome(
                    r,
                    #[trigger] randomized(
                        config.ty,
                        seed,
                        data@,
                        patch_views(patches@),
                        check_models(catalog@),
                    ),
                ),
        },
{
    let seed: u64 = match &config.seed {
        Some(name) => match seed_from_name(name.as_str()) {
            Ok(seed) => seed,
            Err(e) => {
                return Err(e);
            },
        },
        None => random_seed(),
    };
    randomize_seeded(config.ty, seed, data, patches, catalog)
}

} // verus!
