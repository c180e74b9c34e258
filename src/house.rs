//! Rooms of named devices and a house of named rooms.
use vstd::prelude::*;
use vstd::string::*;
use crate::devices::{joined_lines, Report, SmartDevice};
use crate::drivers::{SocketDriver, ThermometerDriver};

verus! {

/// The map that a list of named entries describes; a later entry replaces an earlier one of the
/// same name.
pub open spec fn map_of<V>(s: Seq<(String, V)>) -> Map<Seq<char>, V>
    decreases s.len(),
{
    if s.len() == 0 {
        Map::empty()
    } else {
        map_of(s.drop_last()).insert(s.last().0@, s.last().1)
    }
}

/// No two entries share a name.
pub open spec fn unique_keys<V>(s: Seq<(String, V)>) -> bool {
    forall|i: int, j: int| 0 <= i < s.len() && 0 <= j < s.len() && i != j ==> s[i].0@ != s[j].0@
}

proof fn lemma_map_of_dom<V>(s: Seq<(String, V)>, k: Seq<char>)
    ensures
        map_of(s).contains_key(k) <==> exists|i: int| 0 <= i < s.len() && s[i].0@ == k,
    decreases s.len(),
{
    if s.len() > 0 {
        let p = s.drop_last();
        lemma_map_of_dom(p, k);
        if map_of(p).contains_key(k) {
            let i = choose|i: int| 0 <= i < p.len() && p[i].0@ == k;
            assert(s[i] == p[i]);
        }
        if exists|i: int| 0 <= i < s.len() && s[i].0@ == k {
            let i = choose|i: int| 0 <= i < s.len() && s[i].0@ == k;
            if i < s.len() - 1 {
                assert(p[i] == s[i]);
            }
        }
    }
}

proof fn lemma_map_of_value<V>(s: Seq<(String, V)>, i: int)
    requires
        unique_keys(s),
        0 <= i < s.len(),
    ensures
        map_of(s).contains_key(s[i].0@),
        map_of(s)[s[i].0@] == s[i].1,
    decreases s.len(),
{
    let p = s.drop_last();
    if i < s.len() - 1 {
        assert(p[i] == s[i]);
        assert(s[i].0@ != s[s.len() - 1].0@);
        lemma_map_of_value(p, i);
    }
}

proof fn lemma_map_of_remove<V>(s: Seq<(String, V)>, i: int)
    requires
        unique_keys(s),
        0 <= i < s.len(),
    ensures
        map_of(s.remove(i)) == map_of(s).remove(s[i].0@),
        unique_keys(s.remove(i)),
    decreases s.len(),
{
    let p = s.drop_last();
    let k = s[i].0@;
    let last = s.last();
    if i == s.len() - 1 {
        assert(s.remove(i) =~= p);
        lemma_map_of_dom(p, k);
        if map_of(p).contains_key(k) {
            let j = choose|j: int| 0 <= j < p.len() && p[j].0@ == k;
            assert(p[j] == s[j]);
        }
        assert(map_of(p) =~= map_of(s).remove(k));
    } else {
        assert(p[i] == s[i]);
        lemma_map_of_remove(p, i);
        assert(s.remove(i) =~= p.remove(i).push(last));
        assert(s.remove(i).drop_last() =~= p.remove(i));
        assert(last.0@ != k);
        assert(map_of(s.remove(i)) =~= map_of(s).remove(k));
    }
    assert forall|a: int, b: int|
        0 <= a < s.remove(i).len() && 0 <= b < s.remove(i).len() && a != b implies s.remove(i)[a].0@
        != s.remove(i)[b].0@ by {
        let a2 = if a < i { a } else { a + 1 };
        let b2 = if b < i { b } else { b + 1 };
        assert(s.remove(i)[a] == s[a2]);
        assert(s.remove(i)[b] == s[b2]);
    }
}

proof fn lemma_map_of_push<V>(s: Seq<(String, V)>, e: (String, V))
    requires
        unique_keys(s),
        !map_of(s).contains_key(e.0@),
    ensures
        map_of(s.push(e)) == map_of(s).insert(e.0@, e.1),
        unique_keys(s.push(e)),
{
    assert(s.push(e).drop_last() =~= s);
    lemma_map_of_dom(s, e.0@);
    assert forall|a: int, b: int|
        0 <= a < s.push(e).len() && 0 <= b < s.push(e).len() && a != b implies s.push(e)[a].0@
        != s.push(e)[b].0@ by {
        if a < s.len() {
            assert(s.push(e)[a] == s[a]);
        }
        if b < s.len() {
            assert(s.push(e)[b] == s[b]);
        }
    }
}

proof fn lemma_map_of_update<V>(s: Seq<(String, V)>, i: int, v: V)
    requires
        unique_keys(s),
        0 <= i < s.len(),
    ensures
        map_of(s.update(i, (s[i].0, v))) == map_of(s).insert(s[i].0@, v),
    decreases s.len(),
{
    let p = s.drop_last();
    let k = s[i].0@;
    let u = s.update(i, (s[i].0, v));
    if i == s.len() - 1 {
        assert(u.drop_last() =~= p);
        assert(map_of(u) =~= map_of(s).insert(k, v));
    } else {
        assert(p[i] == s[i]);
        assert(unique_keys(p)) by {
            assert forall|a: int, b: int| 0 <= a < p.len() && 0 <= b < p.len() && a != b implies p[a].0@ != p[b].0@ by {
                assert(p[a] == s[a] && p[b] == s[b]);
            }
        }
        lemma_map_of_update(p, i, v);
        assert(u.drop_last() =~= p.update(i, (s[i].0, v)));
        assert(s.last().0@ != k);
        assert(map_of(u) =~= map_of(s).insert(k, v));
    }
}

/// Names paired with values, position by position.
pub open spec fn pairs<V>(keys: Seq<String>, values: Seq<V>) -> Seq<(String, V)> {
    Seq::new(keys.len(), |i: int| (keys[i], values[i]))
}

/// No two of `keys` are the same name.
pub open spec fn distinct_names(keys: Seq<String>) -> bool {
    forall|i: int, j: int| 0 <= i < keys.len() && 0 <= j < keys.len() && i != j ==> keys[i]@ != keys[j]@
}

proof fn lemma_pairs_unique<V>(keys: Seq<String>, values: Seq<V>)
    requires
        keys.len() == values.len(),
        distinct_names(keys),
    ensures
        unique_keys(pairs(keys, values)),
{
}

proof fn lemma_unique_pairs<V>(keys: Seq<String>, values: Seq<V>)
    requires
        keys.len() == values.len(),
        unique_keys(pairs(keys, values)),
    ensures
        distinct_names(keys),
{
    assert forall|i: int, j: int| 0 <= i < keys.len() && 0 <= j < keys.len() && i != j implies keys[i]@ != keys[j]@ by {
        assert(pairs(keys, values)[i].0 == keys[i]);
        assert(pairs(keys, values)[j].0 == keys[j]);
    }
}

/// The position of the name `key` in `keys`, if it is there.
fn find_key(keys: &Vec<String>, key: &String) -> (r: Option<usize>)
    ensures
        match r {
            Some(i) => i < keys@.len() && keys@[i as int]@ == key@,
            None => forall|i: int| 0 <= i < keys@.len() ==> keys@[i]@ != key@,
        },
{
    let mut i: usize = 0;
    while i < keys.len()
        invariant
            0 <= i <= keys@.len(),
            forall|j: int| 0 <= j < i ==> keys@[j]@ != key@,
        decreases keys@.len() - i,
    {
        if keys[i] == *key {
            return Some(i);
        }
        i = i + 1;
    }
    None
}

/// Values kept by name, no two under one name.
#[derive(Debug)]
pub struct Registry<V> {
    keys: Vec<String>,
    values: Vec<V>,
}

impl<V> Registry<V> {
    #[verifier::type_invariant]
    spec fn inv(self) -> bool {
        self.keys@.len() == self.values@.len() && distinct_names(self.keys@)
    }

    pub closed spec fn view(&self) -> Map<Seq<char>, V> {
        map_of(self.entries())
    }

    pub fn empty() -> (r: Registry<V>)
        ensures
            r@ == Map::<Seq<char>, V>::empty(),
    {
        let r = Registry { keys: Vec::new(), values: Vec::new() };
        assert(pairs(r.keys@, r.values@) =~= Seq::<(String, V)>::empty());
        r
    }

    /// Keeps `value` under `key`, replacing what was there.
    pub fn insert(&mut self, key: String, value: V)
        ensures
            final(self)@ == old(self)@.insert(key@, value),
    {
        let mut taken = Registry::empty();
        core::mem::swap(self, &mut taken);
        proof {
            use_type_invariant(&taken);
            lemma_pairs_unique(taken.keys@, taken.values@);
        }
        let ghost before = taken@;
        let Registry { mut keys, mut values } = taken;
        match find_key(&keys, &key) {
            Some(i) => {
                proof {
                    lemma_map_of_remove(pairs(keys@, values@), i as int);
                }
                let ghost p = pairs(keys@, values@);
                keys.remove(i);
                values.remove(i);
                assert(pairs(keys@, values@) =~= p.remove(i as int));
            },
            None => {},
        }
        proof {
            lemma_map_of_dom(pairs(keys@, values@), key@);
            lemma_map_of_push(pairs(keys@, values@), (key, value));
        }
        let ghost p = pairs(keys@, values@);
        keys.push(key);
        values.push(value);
        assert(pairs(keys@, values@) =~= p.push((key, value)));
        proof {
            lemma_unique_pairs(keys@, values@);
        }
        *self = Registry { keys, values };
        assert(map_of(p).insert(key@, value) =~= before.insert(key@, value));
    }

    /// Takes out the value under `key`, if there is one.
    pub fn remove(&mut self, key: &str) -> (r: Option<V>)
        ensures
            final(self)@ == old(self)@.remove(key@),
            match r {
                Some(v) => old(self)@.contains_key(key@) && v == old(self)@[key@],
                None => !old(self)@.contains_key(key@),
            },
    {
        let k = String::from_str(key);
        let mut taken = Registry::empty();
        core::mem::swap(self, &mut taken);
        proof {
            use_type_invariant(&taken);
            lemma_pairs_unique(taken.keys@, taken.values@);
        }
        let ghost before = taken@;
        let Registry { mut keys, mut values } = taken;
        let r = match find_key(&keys, &k) {
            Some(i) => {
                proof {
                    lemma_map_of_remove(pairs(keys@, values@), i as int);
                    lemma_map_of_value(pairs(keys@, values@), i as int);
                }
                let ghost p = pairs(keys@, values@);
                keys.remove(i);
                let v = values.remove(i);
                assert(pairs(keys@, values@) =~= p.remove(i as int));
                Some(v)
            },
            None => {
                proof {
                    lemma_map_of_dom(pairs(keys@, values@), key@);
                    assert(map_of(pairs(keys@, values@)).remove(key@) =~= map_of(pairs(keys@, values@)));
                }
                None
            },
        };
        proof {
            lemma_unique_pairs(keys@, values@);
        }
        *self = Registry { keys, values };
        r
    }

    /// The value under `key`, if there is one.
    pub fn get(&self, key: &str) -> (r: Option<&V>)
        ensures
            match r {
                Some(v) => self@.contains_key(key@) && *v == self@[key@],
                None => !self@.contains_key(key@),
            },
    {
        proof {
            use_type_invariant(self);
            lemma_pairs_unique(self.keys@, self.values@);
        }
        let k = String::from_str(key);
        match find_key(&self.keys, &k) {
            Some(i) => {
                proof {
                    lemma_map_of_value(pairs(self.keys@, self.values@), i as int);
                }
                Some(&self.values[i])
            },
            None => {
                proof {
                    lemma_map_of_dom(pairs(self.keys@, self.values@), key@);
                }
                None
            },
        }
    }

    /// The value under `key` for changing in place, if there is one.
    pub fn get_mut(&mut self, key: &str) -> (r: Option<&mut V>)
        ensures
            match r {
                Some(v) => old(self)@.contains_key(key@) && *v == old(self)@[key@] && final(self)@
                    == old(self)@.insert(key@, *final(v)),
                None => !old(self)@.contains_key(key@) && *final(self) == *old(self),
            },
    {
        proof {
            use_type_invariant(&*self);
            lemma_pairs_unique(self.keys@, self.values@);
        }
        let k = String::from_str(key);
        match find_key(&self.keys, &k) {
            Some(i) => {
                let ghost p = pairs(self.keys@, self.values@);
                proof {
                    lemma_map_of_value(p, i as int);
                }
                let v = &mut self.values[i];
                proof {
                    lemma_map_of_update(p, i as int, *final(v));
                    assert(pairs(self.keys@, old(self).values@.update(i as int, *final(v))) =~= p.update(
                        i as int,
                        (p[i as int].0, *final(v)),
                    ));
                }
                Some(v)
            },
            None => {
                proof {
                    lemma_map_of_dom(pairs(self.keys@, self.values@), key@);
                }
                None
            },
        }
    }

    /// The entries, in the order their names were first kept.
    pub closed spec fn entries(&self) -> Seq<(String, V)> {
        pairs(self.keys@, self.values@)
    }

    /// The values, in the order of `entries`.
    pub fn values(&self) -> (r: &Vec<V>)
        ensures
            r@.len() == self.entries().len(),
            forall|i: int| 0 <= i < r@.len() ==> r@[i] == self.entries()[i].1,
    {
        proof {
            use_type_invariant(self);
        }
        &self.values
    }

    /// A registry of the entries of `list`; of two entries under one name the later one stays.
    pub fn from_list(list: Vec<(String, V)>) -> (r: Registry<V>)
        ensures
            r@ == map_of(list@),
    {
        let ghost all = list@;
        let mut rest = list;
        let mut out: Registry<V> = Registry::empty();
        let ghost done: int = 0;
        while rest.len() > 0
            invariant
                0 <= done <= all.len(),
                rest@ == all.skip(done),
                out@ == map_of(all.take(done)),
            decreases rest@.len(),
        {
            let (k, v) = rest.remove(0);
            proof {
                assert(all[done] == (k, v));
                assert(all.take(done + 1).drop_last() =~= all.take(done));
            }
            out.insert(k, v);
            proof {
                done = done + 1;
                assert(rest@ =~= all.skip(done));
            }
        }
        assert(all.take(done) =~= all);
        out
    }
}

/// A named room holding devices by name.
#[derive(Debug)]
pub struct Room<D: SocketDriver, T: ThermometerDriver> {
    name: String,
    devices: Registry<SmartDevice<D, T>>,
}

impl<D: SocketDriver, T: ThermometerDriver> Room<D, T> {
    pub closed spec fn name_view(&self) -> Seq<char> {
        self.name@
    }

    /// The room's devices with their names, in the order they were first added.
    pub closed spec fn device_entries(&self) -> Seq<(String, SmartDevice<D, T>)> {
        self.devices.entries()
    }

    /// The room's devices by name.
    pub closed spec fn devices_view(&self) -> Map<Seq<char>, SmartDevice<D, T>> {
        self.devices@
    }

    /// A room holding `devices`, each under the name paired with it; of two devices under one
    /// name the later one stays.
    pub fn new(name: &str, devices: Vec<(String, SmartDevice<D, T>)>) -> (r: Room<D, T>)
        ensures
            r.name_view() == name@,
            r.devices_view() == map_of(devices@),
    {
        Room { name: String::from_str(name), devices: Registry::from_list(devices) }
    }

    pub fn name(&self) -> (r: &String)
        ensures
            r@ == self.name_view(),
    {
        &self.name
    }

    /// Adds a device under its own name, replacing one of that name.
    pub fn add_device(&mut self, device: SmartDevice<D, T>)
        ensures
            final(self).name_view() == old(self).name_view(),
            final(self).devices_view() == old(self).devices_view().insert(device.name_view(), device),
    {
        let key = device.name();
        self.devices.insert(key, device);
    }

    /// Takes out the device of that name, if the room has one.
    pub fn remove_device(&mut self, device_name: &str) -> (r: Option<SmartDevice<D, T>>)
        ensures
            final(self).name_view() == old(self).name_view(),
            final(self).devices_view() == old(self).devices_view().remove(device_name@),
            match r {
                Some(d) => old(self).devices_view().contains_key(device_name@) && d == old(
                    self,
                ).devices_view()[device_name@],
                None => !old(self).devices_view().contains_key(device_name@),
            },
    {
        self.devices.remove(device_name)
    }

    /// The device of that name, if the room has one.
    pub fn get_device(&self, key: &str) -> (r: Option<&SmartDevice<D, T>>)
        ensures
            match r {
                Some(d) => self.devices_view().contains_key(key@) && *d == self.devices_view()[key@],
                None => !self.devices_view().contains_key(key@),
            },
    {
        self.devices.get(key)
    }

    /// The device of that name for changing in place, if the room has one.
    pub fn get_device_mut(&mut self, key: &str) -> (r: Option<&mut SmartDevice<D, T>>)
        ensures
            final(self).name_view() == old(self).name_view(),
            match r {
                Some(d) => old(self).devices_view().contains_key(key@) && *d == old(
                    self,
                ).devices_view()[key@] && final(self).devices_view() == old(
                    self,
                ).devices_view().insert(key@, *final(d)),
                None => !old(self).devices_view().contains_key(key@) && *final(self) == *old(self),
            },
    {
        self.devices.get_mut(key)
    }
}

impl<D: SocketDriver, T: ThermometerDriver> Report for Room<D, T> {
    /// A heading line, then the report of each device, in the order of `entries`.
    open spec fn reported(&self, text: Seq<char>) -> bool {
        exists|parts: Seq<Seq<char>>|
            #![trigger joined_lines(parts)]
            parts.len() == self.device_entries().len() && (forall|j: int|
                0 <= j < parts.len() ==> self.device_entries()[j].1.reported(#[trigger] parts[j]))
                && text == "Отчёт для комнаты '"@ + self.name_view() + "':"@ + joined_lines(parts)
    }

    fn report(&self) -> (r: String) {
        let mut r = String::from_str("Отчёт для комнаты '");
        r.append(self.name.as_str());
        r.append("':");
        let devices = self.devices.values();
        let ghost head = r@;
        let ghost mut parts: Seq<Seq<char>> = seq![];
        let mut i: usize = 0;
        while i < devices.len()
            invariant
                0 <= i <= devices@.len(),
                devices@.len() == self.devices.entries().len(),
                forall|j: int| 0 <= j < devices@.len() ==> devices@[j] == self.devices.entries()[j].1,
                parts.len() == i,
                forall|j: int| 0 <= j < i ==> self.devices.entries()[j].1.reported(#[trigger] parts[j]),
                r@ == head + joined_lines(parts),
            decreases devices@.len() - i,
        {
            r.append("\n");
            let line = devices[i].report();
            r.append(line.as_str());
            proof {
                let old_parts = parts;
                parts = parts.push(line@);
                assert(parts.drop_last() =~= old_parts);
            }
            i = i + 1;
        }
        r
    }
}

/// Why a device could not be found in a house.
#[derive(Debug)]
pub enum SmartHouseError {
    RoomNotFound(String),
    DeviceNotFound { room: String, device: String },
}

/// The message that describes a lookup failure.
pub open spec fn error_message(e: SmartHouseError) -> Seq<char> {
    match e {
        SmartHouseError::RoomNotFound(room) => "Комната '"@ + room@ + "' не найдена"@,
        SmartHouseError::DeviceNotFound { room, device } => "Устройство '"@ + device@
            + "' не найдено в комнате '"@ + room@ + "'"@,
    }
}

impl SmartHouseError {
    pub fn message(&self) -> (r: String)
        ensures
            r@ == error_message(*self),
    {
        match self {
            SmartHouseError::RoomNotFound(room) => {
                let mut r = String::from_str("Комната '");
                r.append(room.as_str());
                r.append("' не найдена");
                r
            },
            SmartHouseError::DeviceNotFound { room, device } => {
                let mut r = String::from_str("Устройство '");
                r.append(device.as_str());
                r.append("' не найдено в комнате '");
                r.append(room.as_str());
                r.append("'");
                r
            },
        }
    }
}

/// A house holding rooms by name.
#[derive(Debug)]
pub struct SmartHouse<D: SocketDriver, T: ThermometerDriver> {
    rooms: Registry<Room<D, T>>,
}

impl<D: SocketDriver, T: ThermometerDriver> SmartHouse<D, T> {
    /// The house's rooms with their names, in the order they were first added.
    pub closed spec fn room_entries(&self) -> Seq<(String, Room<D, T>)> {
        self.rooms.entries()
    }

    /// The house's rooms by name.
    pub closed spec fn rooms_view(&self) -> Map<Seq<char>, Room<D, T>> {
        self.rooms@
    }

    /// A house holding `rooms`, each under the name paired with it; of two rooms under one name
    /// the later one stays.
    pub fn new(rooms: Vec<(String, Room<D, T>)>) -> (r: SmartHouse<D, T>)
        ensures
            r.rooms_view() == map_of(rooms@),
    {
        SmartHouse { rooms: Registry::from_list(rooms) }
    }

    /// The room of that name, if the house has one.
    pub fn get_room(&self, key: &str) -> (r: Option<&Room<D, T>>)
        ensures
            match r {
                Some(room) => self.rooms_view().contains_key(key@) && *room == self.rooms_view()[key@],
                None => !self.rooms_view().contains_key(key@),
            },
    {
        self.rooms.get(key)
    }

    /// The room of that name for changing in place, if the house has one.
    pub fn get_room_mut(&mut self, key: &str) -> (r: Option<&mut Room<D, T>>)
        ensures
            match r {
                Some(room) => old(self).rooms_view().contains_key(key@) && *room == old(
                    self,
                ).rooms_view()[key@] && final(self).rooms_view() == old(self).rooms_view().insert(
                    key@,
                    *final(room),
                ),
                None => !old(self).rooms_view().contains_key(key@) && *final(self) == *old(self),
            },
    {
        self.rooms.get_mut(key)
    }

    /// Adds a room under its own name, replacing one of that name.
    pub fn add_room(&mut self, room: Room<D, T>)
        ensures
            final(self).rooms_view() == old(self).rooms_view().insert(room.name_view(), room),
    {
        let key = room.name().clone();
        self.rooms.insert(key, room);
    }

    /// Takes out the room of that name, if the house has one.
    pub fn remove_room(&mut self, key: &str) -> (r: Option<Room<D, T>>)
        ensures
            final(self).rooms_view() == old(self).rooms_view().remove(key@),
            match r {
                Some(room) => old(self).rooms_view().contains_key(key@) && room == old(
                    self,
                ).rooms_view()[key@],
                None => !old(self).rooms_view().contains_key(key@),
            },
    {
        self.rooms.remove(key)
    }

    /// The device `device_name` of the room `room_name`; fails with `RoomNotFound` when there is
    /// no such room, else with `DeviceNotFound` when the room has no such device.
    pub fn get_device(&self, room_name: &str, device_name: &str) -> (r: Result<
        &SmartDevice<D, T>,
        SmartHouseError,
    >)
        ensures
            !self.rooms_view().contains_key(room_name@) ==> match r {
                Err(SmartHouseError::RoomNotFound(room)) => room@ == room_name@,
                _ => false,
            },
            self.rooms_view().contains_key(room_name@) && !self.rooms_view()[room_name@].devices_view().contains_key(device_name@) ==> match r {
                Err(SmartHouseError::DeviceNotFound { room, device }) => room@ == room_name@
                    && device@ == device_name@,
                _ => false,
            },
            self.rooms_view().contains_key(room_name@) && self.rooms_view()[room_name@].devices_view().contains_key(device_name@) ==> match r {
                Ok(d) => *d == self.rooms_view()[room_name@].devices_view()[device_name@],
                _ => false,
            },
    {
        match self.get_room(room_name) {
            None => Err(SmartHouseError::RoomNotFound(String::from_str(room_name))),
            Some(room) => match room.get_device(device_name) {
                None => Err(
                    SmartHouseError::DeviceNotFound {
                        room: String::from_str(room_name),
                        device: String::from_str(device_name),
                    },
                ),
                Some(d) => Ok(d),
            },
        }
    }

    /// As `get_device`, for changing the device in place; on failure the house is left as it
    /// was.
    pub fn get_device_mut(&mut self, room_name: &str, device_name: &str) -> (r: Result<
        &mut SmartDevice<D, T>,
        SmartHouseError,
    >)
        ensures
            !old(self).rooms_view().contains_key(room_name@) ==> match r {
                Err(SmartHouseError::RoomNotFound(room)) => room@ == room_name@,
                _ => false,
            },
            old(self).rooms_view().contains_key(room_name@) && !old(self).rooms_view()[room_name@].devices_view().contains_key(device_name@) ==> match r {
                Err(SmartHouseError::DeviceNotFound { room, device }) => room@ == room_name@
                    && device@ == device_name@,
                _ => false,
            },
            r is Err ==> final(self).rooms_view() == old(self).rooms_view(),
            old(self).rooms_view().contains_key(room_name@) && old(self).rooms_view()[room_name@].devices_view().contains_key(device_name@) ==> match r {
                Ok(d) => *d == old(self).rooms_view()[room_name@].devices_view()[device_name@]
                    && final(self).rooms_view().dom() == old(self).rooms_view().dom()
                    && (forall|k: Seq<char>| k != room_name@ && old(self).rooms_view().contains_key(k) ==> #[trigger] final(self).rooms_view()[k] == old(self).rooms_view()[k])
                    && final(self).rooms_view()[room_name@].name_view() == old(self).rooms_view()[room_name@].name_view()
                    && final(self).rooms_view()[room_name@].devices_view() == old(self).rooms_view()[room_name@].devices_view().insert(device_name@, *final(d)),
                _ => false,
            },
    {
        match self.rooms.get_mut(room_name) {
            None => Err(SmartHouseError::RoomNotFound(String::from_str(room_name))),
            Some(room) => match room.get_device_mut(device_name) {
                None => {
                    Err(
                        SmartHouseError::DeviceNotFound {
                            room: String::from_str(room_name),
                            device: String::from_str(device_name),
                        },
                    )
                },
                Some(d) => Ok(d),
            },
        }
    }
}

impl<D: SocketDriver, T: ThermometerDriver> Report for SmartHouse<D, T> {
    /// A heading line, then the report of each room, in the order of `entries`.
    open spec fn reported(&self, text: Seq<char>) -> bool {
        exists|parts: Seq<Seq<char>>|
            #![trigger joined_lines(parts)]
            parts.len() == self.room_entries().len() && (forall|j: int|
                0 <= j < parts.len() ==> self.room_entries()[j].1.reported(#[trigger] parts[j]))
                && text == "== Отчёт по всему дому =="@ + joined_lines(parts)
    }

    fn report(&self) -> (r: String) {
        let mut r = String::from_str("== Отчёт по всему дому ==");
        let rooms = self.rooms.values();
        let ghost head = r@;
        let ghost mut parts: Seq<Seq<char>> = seq![];
        let mut i: usize = 0;
        while i < rooms.len()
            invariant
                0 <= i <= rooms@.len(),
                rooms@.len() == self.rooms.entries().len(),
                forall|j: int| 0 <= j < rooms@.len() ==> rooms@[j] == self.rooms.entries()[j].1,
                parts.len() == i,
                forall|j: int| 0 <= j < i ==> self.rooms.entries()[j].1.reported(#[trigger] parts[j]),
                r@ == head + joined_lines(parts),
            decreases rooms@.len() - i,
        {
            r.append("\n");
            let part = rooms[i].report();
            r.append(part.as_str());
            proof {
                let old_parts = parts;
                parts = parts.push(part@);
                assert(parts.drop_last() =~= old_parts);
            }
            i = i + 1;
        }
        r
    }
}

} // verus!
