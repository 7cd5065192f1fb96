//! A certificate that the base-field prime is a prime.
//!
//! For each prime there is an element of large prime order, or of an order with
//! two large prime factors, shown by repeated squaring with the quotients
//! written out. The primes of the orders have certificates of the same kind,
//! down to trial division.
use crate::primes;
use vstd::prelude::*;

verus! {

proof fn lemma_prime_911()
    ensures
        primes::prime(911),
{
    assert(forall|d: u32| 2 <= d < 31 ==> #[trigger] (911u32 % d) != 0) by (bit_vector);
    assert forall|d: int| 1 < d < 31 implies #[trigger] (911int % d) != 0 by {
        let e = d as u32;
        assert(911u32 % e != 0);
    }
    primes::lemma_prime_by_trial(911, 31);
}

proof fn lemma_prime_3557()
    ensures
        primes::prime(3557),
{
    assert(forall|d: u32| 2 <= d < 60 ==> #[trigger] (3557u32 % d) != 0) by (bit_vector);
    assert forall|d: int| 1 < d < 60 implies #[trigger] (3557int % d) != 0 by {
        let e = d as u32;
        assert(3557u32 % e != 0);
    }
    primes::lemma_prime_by_trial(3557, 60);
}

proof fn lemma_prime_13327()
    ensures
        primes::prime(13327),
{
    assert(forall|d: u32| 2 <= d < 116 ==> #[trigger] (13327u32 % d) != 0) by (bit_vector);
    assert forall|d: int| 1 < d < 116 implies #[trigger] (13327int % d) != 0 by {
        let e = d as u32;
        assert(13327u32 % e != 0);
    }
    primes::lemma_prime_by_trial(13327, 116);
}

proof fn square_t(e: int, x: int, k: int, y: int)
    requires
        primes::power_is(11725631int, 1263766531int, e, x),
        x * x == 1263766531int * k + y,
        0 <= y < 1263766531int,
    ensures
        primes::power_is(11725631int, 1263766531int, 2 * e, y),
{
    primes::lemma_power_square(11725631int, 1263766531int, e, x, k, y);
}

proof fn times_t(e: int, x: int, k: int, y: int)
    requires
        primes::power_is(11725631int, 1263766531int, e, x),
        x * 11725631int == 1263766531int * k + y,
        0 <= y < 1263766531int,
    ensures
        primes::power_is(11725631int, 1263766531int, e + 1, y),
{
    primes::lemma_power_times(11725631int, 1263766531int, e, x, k, y);
}

proof fn square_t_x(e: int, x: int, k: int, y: int)
    requires
        primes::power_is(142661317int, 1263766531int, e, x),
        x * x == 1263766531int * k + y,
        0 <= y < 1263766531int,
    ensures
        primes::power_is(142661317int, 1263766531int, 2 * e, y),
{
    primes::lemma_power_square(142661317int, 1263766531int, e, x, k, y);
}

proof fn times_t_x(e: int, x: int, k: int, y: int)
    requires
        primes::power_is(142661317int, 1263766531int, e, x),
        x * 142661317int == 1263766531int * k + y,
        0 <= y < 1263766531int,
    ensures
        primes::power_is(142661317int, 1263766531int, e + 1, y),
{
    primes::lemma_power_times(142661317int, 1263766531int, e, x, k, y);
}

/// The order of an element modulo 1263766531 is divisible by 911 and 3557.
proof fn lemma_prime_t()
    ensures
        primes::prime(1263766531int),
{
    lemma_prime_911();
    lemma_prime_3557();
    primes::lemma_power_one(11725631int, 1263766531int);
    assert(primes::power_is(11725631int, 1263766531int, 113int, 1187764546int)) by {
        square_t(1int, 11725631int, 108794int, 206374547int);
        times_t(2int, 206374547int, 1914809int, 258456578int);
        square_t(3int, 258456578int, 52857708int, 435699136int);
        times_t(6int, 435699136int, 4042556int, 323261580int);
        square_t(7int, 323261580int, 82687780int, 217405220int);
        square_t(14int, 217405220int, 37400127int, 925498963int);
        square_t(28int, 925498963int, 677774184int, 1199039665int);
        square_t(56int, 1199039665int, 1137627942int, 413303023int);
        times_t(112int, 413303023int, 3834757int, 1187764546int);
    }
    assert(primes::power_is(11725631int, 1263766531int, 911int, 142661317int)) by {
        square_t(113int, 1187764546int, 1116333264int, 249398932int);
        times_t(226int, 249398932int, 2314003int, 304392499int);
        square_t(227int, 304392499int, 73316384int, 1174321097int);
        times_t(454int, 1174321097int, 10895727int, 745424170int);
        square_t(455int, 745424170int, 439683422int, 261039818int);
        times_t(910int, 261039818int, 2422011int, 142661317int);
    }
    primes::lemma_power_one(11725631int, 1263766531int);
    assert(primes::power_is(11725631int, 1263766531int, 55int, 1257042356int)) by {
        square_t(1int, 11725631int, 108794int, 206374547int);
        times_t(2int, 206374547int, 1914809int, 258456578int);
        square_t(3int, 258456578int, 52857708int, 435699136int);
        square_t(6int, 435699136int, 150212663int, 1079364443int);
        times_t(12int, 1079364443int, 10014689int, 396564674int);
        square_t(13int, 396564674int, 124440343int, 75166143int);
        times_t(26int, 75166143int, 697415int, 721293868int);
        square_t(27int, 721293868int, 411677973int, 187079761int);
        times_t(54int, 187079761int, 1735785int, 1257042356int);
    }
    assert(primes::power_is(11725631int, 1263766531int, 3557int, 663035740int)) by {
        square_t(55int, 1257042356int, 1250353958int, 754251038int);
        times_t(110int, 754251038int, 6998182int, 1163508336int);
        square_t(111int, 1163508336int, 1071203908int, 1134685748int);
        square_t(222int, 1134685748int, 1018789242int, 531860002int);
        square_t(444int, 531860002int, 223834905int, 318875449int);
        times_t(888int, 318875449int, 2958628int, 805853851int);
        square_t(889int, 805853851int, 513861075int, 1002849376int);
        square_t(1778int, 1002849376int, 795801159int, 868379947int);
        times_t(3556int, 868379947int, 8057107int, 663035740int);
    }
    primes::lemma_power_one(142661317int, 1263766531int);
    assert(primes::power_is(142661317int, 1263766531int, 55int, 402959909int)) by {
        square_t_x(1int, 142661317int, 16104439int, 359443380int);
        times_t_x(2int, 359443380int, 40576059int, 653650131int);
        square_t_x(3int, 653650131int, 338083406int, 567032575int);
        square_t_x(6int, 567032575int, 254418781int, 825511914int);
        times_t_x(12int, 825511914int, 93188586int, 792415572int);
        square_t_x(13int, 792415572int, 496865855int, 802388179int);
        times_t_x(26int, 802388179int, 90578244int, 1157420179int);
        square_t_x(27int, 1157420179int, 1060022906int, 60232955int);
        times_t_x(54int, 60232955int, 6799446int, 402959909int);
    }
    assert(primes::power_is(142661317int, 1263766531int, 3557int, 1int)) by {
        square_t_x(55int, 402959909int, 128486302int, 101729919int);
        times_t_x(110int, 101729919int, 11483864int, 1253087539int);
        square_t_x(111int, 1253087539int, 1242498785int, 1105911686int);
        square_t_x(222int, 1105911686int, 967774210int, 1068397086int);
        square_t_x(444int, 1068397086int, 903230387int, 500513899int);
        times_t_x(888int, 500513899int, 56500920int, 341436463int);
        square_t_x(889int, 341436463int, 92247148int, 43346781int);
        square_t_x(1778int, 43346781int, 1486780int, 620101781int);
        times_t_x(3556int, 620101781int, 70000696int, 1int);
    }
    primes::lemma_power_power(11725631int, 1263766531int, 911int, 3557int, 142661317int);
    primes::lemma_pocklington_pair(1263766531int, 911int, 3557int, 11725631int, 142661317int, 663035740int, 2862int, 733int, 979652892int, 513975377int, 1084735757int, 122451281int);
}

proof fn square_s(e: int, x: int, k: int, y: int)
    requires
        primes::power_is(268435456int, 35385462869int, e, x),
        x * x == 35385462869int * k + y,
        0 <= y < 35385462869int,
    ensures
        primes::power_is(268435456int, 35385462869int, 2 * e, y),
{
    primes::lemma_power_square(268435456int, 35385462869int, e, x, k, y);
}

proof fn times_s(e: int, x: int, k: int, y: int)
    requires
        primes::power_is(268435456int, 35385462869int, e, x),
        x * 268435456int == 35385462869int * k + y,
        0 <= y < 35385462869int,
    ensures
        primes::power_is(268435456int, 35385462869int, e + 1, y),
{
    primes::lemma_power_times(268435456int, 35385462869int, e, x, k, y);
}

/// The order of an element modulo 35385462869 is divisible by 1263766531.
proof fn lemma_prime_s()
    ensures
        primes::prime(35385462869int),
{
    lemma_prime_t();
    primes::lemma_power_one(268435456int, 35385462869int);
    assert(primes::power_is(268435456int, 35385462869int, 75int, 20563541337int)) by {
        square_s(1int, 268435456int, 2036361int, 17484548227int);
        square_s(2int, 17484548227int, 8639407313int, 17960282532int);
        square_s(4int, 17960282532int, 9115939780int, 28034302204int);
        times_s(8int, 28034302204int, 212669273int, 32653820787int);
        square_s(9int, 32653820787int, 30133052545int, 28789847764int);
        square_s(18int, 28789847764int, 23423611479int, 26259126445int);
        times_s(36int, 26259126445int, 199202723int, 23305041633int);
        square_s(37int, 23305041633int, 15348816193int, 35355868972int);
        times_s(74int, 35355868972int, 268210955int, 20563541337int);
    }
    assert(primes::power_is(268435456int, 35385462869int, 4820int, 17189465050int)) by {
        square_s(75int, 20563541337int, 11950083396int, 27896324445int);
        square_s(150int, 27896324445int, 21992220941int, 26104818296int);
        times_s(300int, 26104818296int, 198032136int, 7787144792int);
        square_s(301int, 7787144792int, 1713687460int, 26671800524int);
        square_s(602int, 26671800524int, 20103875589int, 14491669735int);
        times_s(1204int, 14491669735int, 109934353int, 7407085403int);
        square_s(1205int, 7407085403int, 1550493047int, 24074500566int);
        square_s(2410int, 24074500566int, 16379087074int, 17189465050int);
    }
    assert(primes::power_is(268435456int, 35385462869int, 154268int, 6860581395int)) by {
        square_s(4820int, 17189465050int, 8350256991int, 3533335321int);
        times_s(9640int, 3533335321int, 26804015int, 570922341int);
        square_s(9641int, 570922341int, 9211475int, 12871698506int);
        times_s(19282int, 12871698506int, 97645190int, 12871178626int);
        square_s(19283int, 12871178626int, 4681788107int, 1624948893int);
        times_s(38566int, 1624948893int, 12326923int, 20963628121int);
        square_s(38567int, 20963628121int, 12419611568int, 8715122049int);
        square_s(77134int, 8715122049int, 2146456374int, 6860581395int);
    }
    assert(primes::power_is(268435456int, 35385462869int, 9873176int, 14982731099int)) by {
        square_s(154268int, 6860581395int, 1330138798int, 30174854563int);
        square_s(308536int, 30174854563int, 25731522893int, 5126960952int);
        times_s(617072int, 5126960952int, 38893319int, 5717641901int);
        square_s(617073int, 5717641901int, 923866081int, 2916847412int);
        times_s(1234146int, 2916847412int, 22127314int, 17184936006int);
        square_s(1234147int, 17184936006int, 8345857354int, 20377643410int);
        square_s(2468294int, 20377643410int, 11734998422int, 15661835382int);
        square_s(4936588int, 15661835382int, 6932029925int, 14982731099int);
    }
    assert(primes::power_is(268435456int, 35385462869int, 1263766531int, 1int)) by {
        square_s(9873176int, 14982731099int, 6343911114int, 16258321735int);
        square_s(19746352int, 16258321735int, 7470102245int, 20692369320int);
        square_s(39492704int, 20692369320int, 12100283940int, 12050238540int);
        square_s(78985408int, 12050238540int, 4103613096int, 33651199176int);
        square_s(157970816int, 33651199176int, 32001932832int, 19855063968int);
        square_s(315941632int, 19855063968int, 11140833924int, 25974337068int);
        times_s(631883264int, 25974337068int, 197042300int, 24873924308int);
        square_s(631883265int, 24873924308int, 17484923477int, 17423403351int);
        times_s(1263766530int, 17423403351int, 132174595int, 1int);
    }
    primes::lemma_pocklington(35385462869int, 1263766531int, 268435456int, 30792025501int, 233589466int);
}

proof fn square_q(e: int, x: int, k: int, y: int)
    requires
        primes::power_is(1241451147209469int, 2480874801745591int, e, x),
        x * x == 2480874801745591int * k + y,
        0 <= y < 2480874801745591int,
    ensures
        primes::power_is(1241451147209469int, 2480874801745591int, 2 * e, y),
{
    primes::lemma_power_square(1241451147209469int, 2480874801745591int, e, x, k, y);
}

proof fn times_q(e: int, x: int, k: int, y: int)
    requires
        primes::power_is(1241451147209469int, 2480874801745591int, e, x),
        x * 1241451147209469int == 2480874801745591int * k + y,
        0 <= y < 2480874801745591int,
    ensures
        primes::power_is(1241451147209469int, 2480874801745591int, e + 1, y),
{
    primes::lemma_power_times(1241451147209469int, 2480874801745591int, e, x, k, y);
}

/// The order of an element modulo 2480874801745591 is divisible by 35385462869.
proof fn lemma_prime_q()
    ensures
        primes::prime(2480874801745591int),
{
    lemma_prime_s();
    primes::lemma_power_one(1241451147209469int, 2480874801745591int);
    assert(primes::power_is(1241451147209469int, 2480874801745591int, 131int, 1662619311943725int)) by {
        square_q(1int, 1241451147209469int, 621232861014706int, 1633765441600715int);
        square_q(2int, 1633765441600715int, 1075906577909810int, 2154113325363515int);
        square_q(4int, 2154113325363515int, 1870390321689641int, 345831551032394int);
        square_q(8int, 345831551032394int, 48208584167697int, 403545762997309int);
        square_q(16int, 403545762997309int, 65641838402524int, 2435369440969797int);
        square_q(32int, 2435369440969797int, 2390698760709875int, 315491554810084int);
        times_q(64int, 315491554810084int, 157874694998027int, 1968724960536439int);
        square_q(65int, 1968724960536439int, 1562302929398960int, 2354882186815361int);
        times_q(130int, 2354882186815361int, 1178403356069424int, 1662619311943725int);
    }
    assert(primes::power_is(1241451147209469int, 2480874801745591int, 4218int, 743197516862068int)) by {
        square_q(131int, 1662619311943725int, 1114245255142746int, 97066885742739int);
        times_q(262int, 97066885742739int, 48573106783375int, 907468180445966int);
        square_q(263int, 907468180445966int, 331938757224863int, 2451607339844123int);
        times_q(526int, 2451607339844123int, 1226805456855436int, 2057778352218011int);
        square_q(527int, 2057778352218011int, 1706838145914348int, 2319048100156453int);
        square_q(1054int, 2319048100156453int, 2167777304624643int, 1234149642342196int);
        times_q(2108int, 1234149642342196int, 617579125006967int, 264998952921427int);
        square_q(2109int, 264998952921427int, 28306323640371int, 743197516862068int);
    }
    assert(primes::power_is(1241451147209469int, 2480874801745591int, 269969int, 1007028364701099int)) by {
        square_q(4218int, 743197516862068int, 222640235082119int, 100890906049295int);
        square_q(8436int, 100890906049295int, 4102978077041int, 2073353689920794int);
        times_q(16872int, 2073353689920794int, 1037524068168237int, 1365119275805319int);
        square_q(16873int, 1365119275805319int, 751166739999942int, 594391149936039int);
        square_q(33746int, 594391149936039int, 142409781772823int, 1656378787136128int);
        square_q(67492int, 1656378787136128int, 1105896470287056int, 1509998350462288int);
        square_q(134984int, 1509998350462288int, 919068957770264int, 86652957288920int);
        times_q(269968int, 86652957288920int, 43361887169691int, 1007028364701099int);
    }
    assert(primes::power_is(1241451147209469int, 2480874801745591int, 8639029int, 741005289859521int)) by {
        square_q(269969int, 1007028364701099int, 408769570555928int, 1405184918894353int);
        times_q(539938int, 1405184918894353int, 703166652495078int, 1669118836527459int);
        square_q(539939int, 1669118836527459int, 1122973915689145int, 776005930686986int);
        square_q(1079878int, 776005930686986int, 242730993130998int, 246044977834378int);
        times_q(2159756int, 246044977834378int, 123123028934267int, 631621559258485int);
        square_q(2159757int, 631621559258485int, 160808515544361int, 493962647832874int);
        square_q(4319514int, 493962647832874int, 98352039886245int, 1378225564804081int);
        times_q(8639028int, 1378225564804081int, 689675959196148int, 741005289859521int);
    }
    assert(primes::power_is(1241451147209469int, 2480874801745591int, 1105795714int, 1150448401457244int)) by {
        square_q(8639029int, 741005289859521int, 221328718085025int, 537551157474666int);
        square_q(17278058int, 537551157474666int, 116475545923975int, 2206187454367331int);
        square_q(34556116int, 2206187454367331int, 1961914031446933int, 1110409596841158int);
        square_q(69112232int, 1110409596841158int, 497005923833550int, 389481352402914int);
        square_q(138224464int, 389481352402914int, 61146061769367int, 865720144580499int);
        square_q(276448928int, 865720144580499int, 302099633647428int, 1480468043599053int);
        times_q(552897856int, 1480468043599053int, 740838977379995int, 1044598718180812int);
        square_q(552897857int, 1044598718180812int, 439839399093100int, 1150448401457244int);
    }
    assert(primes::power_is(1241451147209469int, 2480874801745591int, 35385462869int, 1int)) by {
        square_q(1105795714int, 1150448401457244int, 533493880257184int, 638047541999792int);
        times_q(2211591428int, 638047541999792int, 319284492886333int, 691406231522645int);
        square_q(2211591429int, 691406231522645int, 192691133245412int, 626084555817533int);
        square_q(4423182858int, 626084555817533int, 158001472205462int, 548647785588047int);
        times_q(8846365716int, 548647785588047int, 274548083745688int, 88723132355435int);
        square_q(8846365717int, 88723132355435int, 3172991321215int, 292995783026160int);
        square_q(17692731434int, 292995783026160int, 34603329765254int, 803159784850486int);
        times_q(35385462868int, 803159784850486int, 401908083226763int, 1int);
    }
    primes::lemma_pocklington(2480874801745591int, 35385462869int, 1241451147209469int, 60395260069513int, 30222309020413int);
}

proof fn square_r(e: int, x: int, k: int, y: int)
    requires
        primes::power_is(16359965int, 173171039int, e, x),
        x * x == 173171039int * k + y,
        0 <= y < 173171039int,
    ensures
        primes::power_is(16359965int, 173171039int, 2 * e, y),
{
    primes::lemma_power_square(16359965int, 173171039int, e, x, k, y);
}

proof fn times_r(e: int, x: int, k: int, y: int)
    requires
        primes::power_is(16359965int, 173171039int, e, x),
        x * 16359965int == 173171039int * k + y,
        0 <= y < 173171039int,
    ensures
        primes::power_is(16359965int, 173171039int, e + 1, y),
{
    primes::lemma_power_times(16359965int, 173171039int, e, x, k, y);
}

/// The order of an element modulo 173171039 is divisible by 13327.
proof fn lemma_prime_r()
    ensures
        primes::prime(173171039int),
{
    lemma_prime_13327();
    primes::lemma_power_one(16359965int, 173171039int);
    assert(primes::power_is(16359965int, 173171039int, 104int, 47955465int)) by {
        square_r(1int, 16359965int, 1545572int, 145711917int);
        times_r(2int, 145711917int, 13765822int, 163773847int);
        square_r(3int, 163773847int, 154886597int, 31515126int);
        square_r(6int, 31515126int, 5735388int, 67767744int);
        times_r(12int, 67767744int, 6402213int, 42859653int);
        square_r(13int, 42859653int, 10607719int, 134630368int);
        square_r(26int, 134630368int, 104667247int, 75555791int);
        square_r(52int, 75555791int, 32965544int, 47955465int);
    }
    assert(primes::power_is(16359965int, 173171039int, 6663int, 74706005int)) by {
        square_r(104int, 47955465int, 13280087int, 159565832int);
        square_r(208int, 159565832int, 147029519int, 172951983int);
        square_r(416int, 172951983int, 172733204int, 17153333int);
        square_r(832int, 17153333int, 1699111int, 15762560int);
        times_r(1664int, 15762560int, 1489134int, 47920174int);
        square_r(1665int, 47920174int, 13260549int, 28149865int);
        times_r(3330int, 28149865int, 2659398int, 91380203int);
        square_r(3331int, 91380203int, 48220196int, 58217565int);
        times_r(6662int, 58217565int, 5499980int, 74706005int);
    }
    assert(primes::power_is(16359965int, 173171039int, 13327int, 1int)) by {
        square_r(6663int, 74706005int, 32228178int, 113723083int);
        times_r(13326int, 113723083int, 10743746int, 1int);
    }
    primes::lemma_pocklington(173171039int, 13327int, 16359965int, 35859620int, 3387761int);
}

proof fn square_n(e: int, x: int, k: int, y: int)
    requires
        primes::power_is(1514272753416439075498401041775419479098int, 13427688667394608761327070753331941386769int, e, x),
        x * x == 13427688667394608761327070753331941386769int * k + y,
        0 <= y < 13427688667394608761327070753331941386769int,
    ensures
        primes::power_is(1514272753416439075498401041775419479098int, 13427688667394608761327070753331941386769int, 2 * e, y),
{
    primes::lemma_power_square(1514272753416439075498401041775419479098int, 13427688667394608761327070753331941386769int, e, x, k, y);
}

proof fn times_n(e: int, x: int, k: int, y: int)
    requires
        primes::power_is(1514272753416439075498401041775419479098int, 13427688667394608761327070753331941386769int, e, x),
        x * 1514272753416439075498401041775419479098int == 13427688667394608761327070753331941386769int * k + y,
        0 <= y < 13427688667394608761327070753331941386769int,
    ensures
        primes::power_is(1514272753416439075498401041775419479098int, 13427688667394608761327070753331941386769int, e + 1, y),
{
    primes::lemma_power_times(1514272753416439075498401041775419479098int, 13427688667394608761327070753331941386769int, e, x, k, y);
}

proof fn square_n_x(e: int, x: int, k: int, y: int)
    requires
        primes::power_is(11079643483354044030555362120445414701546int, 13427688667394608761327070753331941386769int, e, x),
        x * x == 13427688667394608761327070753331941386769int * k + y,
        0 <= y < 13427688667394608761327070753331941386769int,
    ensures
        primes::power_is(11079643483354044030555362120445414701546int, 13427688667394608761327070753331941386769int, 2 * e, y),
{
    primes::lemma_power_square(11079643483354044030555362120445414701546int, 13427688667394608761327070753331941386769int, e, x, k, y);
}

proof fn times_n_x(e: int, x: int, k: int, y: int)
    requires
        primes::power_is(11079643483354044030555362120445414701546int, 13427688667394608761327070753331941386769int, e, x),
        x * 11079643483354044030555362120445414701546int == 13427688667394608761327070753331941386769int * k + y,
        0 <= y < 13427688667394608761327070753331941386769int,
    ensures
        primes::power_is(11079643483354044030555362120445414701546int, 13427688667394608761327070753331941386769int, e + 1, y),
{
    primes::lemma_power_times(11079643483354044030555362120445414701546int, 13427688667394608761327070753331941386769int, e, x, k, y);
}

/// The order of an element modulo this number is divisible by 173171039 and by
/// 2480874801745591.
proof fn lemma_prime_n()
    ensures
        primes::prime(13427688667394608761327070753331941386769int),
{
    lemma_prime_q();
    lemma_prime_r();
    primes::lemma_power_one(1514272753416439075498401041775419479098int, 13427688667394608761327070753331941386769int);
    assert(primes::power_is(1514272753416439075498401041775419479098int, 13427688667394608761327070753331941386769int, 82int, 6472213324160966651800333584365017643193int)) by {
        square_n(1int, 1514272753416439075498401041775419479098int, 170768181221491012048872772419496816995int, 5830895031274076398685894519111951554449int);
        square_n(2int, 5830895031274076398685894519111951554449int, 2532031960816503371480848312270410518991int, 396110672196323480651083783749861063522int);
        times_n(4int, 396110672196323480651083783749861063522int, 44670353409433570301113307826675246028int, 6373730131732107481778487666962950259624int);
        square_n(5int, 6373730131732107481778487666962950259624int, 3025422825805820408305290434631843701124int, 4148140567112394932898229187570880593020int);
        square_n(10int, 4148140567112394932898229187570880593020int, 1281461805582825656273790710951575592115int, 94344213696031784559250719681470993965int);
        square_n(20int, 94344213696031784559250719681470993965int, 662871390482540184784200800781157353int, 8439375720020512406074682806405445158768int);
        times_n(40int, 8439375720020512406074682806405445158768int, 951728702178118788815706654401767129905int, 5991854168591435982367372640821796204319int);
        square_n(41int, 5991854168591435982367372640821796204319int, 2673752517426570623620133779134613492872int, 6472213324160966651800333584365017643193int);
    }
    assert(primes::power_is(1514272753416439075498401041775419479098int, 13427688667394608761327070753331941386769int, 5284int, 1513240137825253187361051510362351629958int)) by {
        square_n(82int, 6472213324160966651800333584365017643193int, 3119639302865563899057480194632973061964int, 11218931002431094160509419212421932480933int);
        times_n(164int, 11218931002431094160509419212421932480933int, 1265185838028272366822867750445184199922int, 7604883626144598923995204902837255406416int);
        square_n(165int, 7604883626144598923995204902837255406416int, 4307089358396918859560239856618432618650int, 12334054849211999607601928264956201323206int);
        square_n(330int, 12334054849211999607601928264956201323206int, 11329493317250689950995915832533036724518int, 5117658443901386853126760871594931016094int);
        square_n(660int, 5117658443901386853126760871594931016094int, 1950479237132694546162591126272905700104int, 4421045969664665507554462902952699492860int);
        times_n(1320int, 4421045969664665507554462902952699492860int, 498571989513049896666747478246678188572int, 2242060396018570819487180848175402436412int);
        square_n(1321int, 2242060396018570819487180848175402436412int, 374363372871551218765848687302881339426int, 10652286601959882409447407534747068979150int);
        square_n(2642int, 10652286601959882409447407534747068979150int, 8450539229869631698190841785413570900318int, 1513240137825253187361051510362351629958int);
    }
    assert(primes::power_is(1514272753416439075498401041775419479098int, 13427688667394608761327070753331941386769int, 338224int, 7005468695033447609290613898789791388170int)) by {
        square_n(5284int, 1513240137825253187361051510362351629958int, 170535359542983996956351815411204571697int, 157234634489240628266747542364495404771int);
        times_n(10568int, 157234634489240628266747542364495404771int, 17731727983729599652931668209724490087int, 11608677652425649753302816346243310517655int);
        square_n(10569int, 11608677652425649753302816346243310517655int, 10036082916128157234222498233305753185770int, 13406068593173784553404184781010589621895int);
        times_n(21138int, 13406068593173784553404184781010589621895int, 1511834605636104250692946716208638819856int, 10906843122752447729181467957817462765446int);
        square_n(21139int, 10906843122752447729181467957817462765446int, 8859248218436254022374766310204824582847int, 8526215443290823120987118279006901427573int);
        square_n(42278int, 8526215443290823120987118279006901427573int, 5413913860092221750758125227932395809113int, 4823868114278732508976591889972336844432int);
        square_n(84556int, 4823868114278732508976591889972336844432int, 1732964187683248127644917840419655543622int, 1533307114989063194689973694794116265306int);
        square_n(169112int, 1533307114989063194689973694794116265306int, 175088264787141337056075591395792760314int, 7005468695033447609290613898789791388170int);
    }
    assert(primes::power_is(1514272753416439075498401041775419479098int, 13427688667394608761327070753331941386769int, 10823189int, 9349503537263036858384091952727340114745int)) by {
        square_n(338224int, 7005468695033447609290613898789791388170int, 3654880065566490966746875667137957566027int, 10762936419209211432306226111217354252137int);
        times_n(676448int, 10762936419209211432306226111217354252137int, 1213762231912420967344166074767954265080int, 12041411906972112398629039594984462605906int);
        square_n(676449int, 12041411906972112398629039594984462605906int, 10798254584607035154493482445030189580979int, 8232168744799702421717157987087981413985int);
        square_n(1352898int, 8232168744799702421717157987087981413985int, 5046929812084058008798228375589116368942int, 7033496603255491511629997420874632251827int);
        times_n(2705796int, 7033496603255491511629997420874632251827int, 793184332119566503638775986907922353115int, 589251069145061883634484380436291876611int);
        square_n(2705797int, 589251069145061883634484380436291876611int, 25858271746478421716496993192357496881int, 3624748530574366801330552676655316677832int);
        square_n(5411594int, 3624748530574366801330552676655316677832int, 978485742062589057441528556916787006798int, 781917681420016923300242440529964562int);
        times_n(10823188int, 781917681420016923300242440529964562int, 88178737958379188682280513850745899int, 9349503537263036858384091952727340114745int);
    }
    assert(primes::power_is(1514272753416439075498401041775419479098int, 13427688667394608761327070753331941386769int, 173171039int, 11079643483354044030555362120445414701546int)) by {
        square_n(10823189int, 9349503537263036858384091952727340114745int, 6509922784071738105823528144198441693971int, 5389015127112222651423439008746519945326int);
        times_n(21646378int, 5389015127112222651423439008746519945326int, 607732199998828760529924869535974642778int, 12785976394976326140282149999205649191666int);
        square_n(21646379int, 12785976394976326140282149999205649191666int, 12174931696909254418728441390779089046638int, 10471633796983590435024360819323366722934int);
        times_n(43292758int, 10471633796983590435024360819323366722934int, 1180911334430255160631201032803106586866int, 5147646337299588514978901537491168657578int);
        square_n(43292759int, 5147646337299588514978901537491168657578int, 1973404617151833332791344074638095276101int, 12479690608253215928011083160260733518415int);
        times_n(86585518int, 12479690608253215928011083160260733518415int, 1407364731730230707343847038417156292915int, 10350794154943410817764215141127821148035int);
        square_n(86585519int, 10350794154943410817764215141127821148035int, 7978956192078512096464543085148948677619int, 1919493616156468614544791676725811338214int);
        times_n(173171038int, 1919493616156468614544791676725811338214int, 216465912734519152889473051945243323154int, 11079643483354044030555362120445414701546int);
    }
    primes::lemma_power_one(1514272753416439075498401041775419479098int, 13427688667394608761327070753331941386769int);
    assert(primes::power_is(1514272753416439075498401041775419479098int, 13427688667394608761327070753331941386769int, 70int, 11423405306550952148424423498768336892320int)) by {
        square_n(1int, 1514272753416439075498401041775419479098int, 170768181221491012048872772419496816995int, 5830895031274076398685894519111951554449int);
        square_n(2int, 5830895031274076398685894519111951554449int, 2532031960816503371480848312270410518991int, 396110672196323480651083783749861063522int);
        square_n(4int, 396110672196323480651083783749861063522int, 11685083599593722943551439958633859305int, 9413674455946964601967572120924784508939int);
        square_n(8int, 9413674455946964601967572120924784508939int, 6599592004075180809117827843753501764662int, 11341300705291126934393188885754412348643int);
        times_n(16int, 11341300705291126934393188885754412348643int, 1278985763799158409700197267851270972357int, 9247589742950705406473591278476182619481int);
        square_n(17int, 9247589742950705406473591278476182619481int, 6368774118332328149147655526701350130563int, 1419209715436686800296866149085409988414int);
        times_n(34int, 1419209715436686800296866149085409988414int, 160047693739585307138195897764315975723int, 9602019160610221327648040178556137761585int);
        square_n(35int, 9602019160610221327648040178556137761585int, 6866317371850062597762962272269770733745int, 11423405306550952148424423498768336892320int);
    }
    assert(primes::power_is(1514272753416439075498401041775419479098int, 13427688667394608761327070753331941386769int, 9025int, 12033969883122783752037974517408151331961int)) by {
        square_n(70int, 11423405306550952148424423498768336892320int, 9718291213781649571928128652894585750487int, 2352855079197628389423204120513877875897int);
        times_n(140int, 2352855079197628389423204120513877875897int, 265337127440098266250068145419964393626int, 2236639810261672998032850288221805166512int);
        square_n(141int, 2236639810261672998032850288221805166512int, 372555379020269250083305959001456809354int, 12345084637815151267356587453191235208918int);
        square_n(282int, 12345084637815151267356587453191235208918int, 11349765286477276031675843895632507949325int, 2942388398594543008724334016554229249799int);
        square_n(564int, 2942388398594543008724334016554229249799int, 644760963903373987945658196955053170432int, 11333277283015590004359729049434154726193int);
        square_n(1128int, 11333277283015590004359729049434154726193int, 9565546026220104757860813160868148640715int, 7466541429126996026855835034159364573414int);
        square_n(2256int, 7466541429126996026855835034159364573414int, 4151812146809842532981911546253407466442int, 7829826200228885082873107883049885309498int);
        square_n(4512int, 7829826200228885082873107883049885309498int, 4565653839938635943275857145767641918308int, 1477045982889477285074406237538318945152int);
        times_n(9024int, 1477045982889477285074406237538318945152int, 166570028754376788833149132832356302615int, 12033969883122783752037974517408151331961int);
    }
    assert(primes::power_is(1514272753416439075498401041775419479098int, 13427688667394608761327070753331941386769int, 288811int, 1313492948538510321352461575057172568558int)) by {
        square_n(9025int, 12033969883122783752037974517408151331961int, 10784911293002528262368630442620431390273int, 1241196969837348337715521906300142607584int);
        square_n(18050int, 1241196969837348337715521906300142607584int, 114730833883143204320756800912018090807int, 2291472803051103983521858403431663984473int);
        times_n(36100int, 2291472803051103983521858403431663984473int, 258414900494438761971980549024369731765int, 12812714670272262136016011089158170028069int);
        square_n(36101int, 12812714670272262136016011089158170028069int, 12225905834444947030069397724062045828887int, 4301811119762210770760137910365388072658int);
        square_n(72202int, 4301811119762210770760137910365388072658int, 1378165622431017112422968036154985513994int, 10419632732486179423512933590453271239578int);
        times_n(144404int, 10419632732486179423512933590453271239578int, 1175047049290230450323179093879988386355int, 6131622426319874027521089862384264203649int);
        square_n(144405int, 6131622426319874027521089862384264203649int, 2799945285463918334420252658054878507281int, 12966887182989964400646208676332341350112int);
        times_n(288810int, 12966887182989964400646208676332341350112int, 1462307061490458929531595558365255513522int, 1313492948538510321352461575057172568558int);
    }
    assert(primes::power_is(1514272753416439075498401041775419479098int, 13427688667394608761327070753331941386769int, 9241978int, 10983359111258580937700994637316788561970int)) by {
        square_n(288811int, 1313492948538510321352461575057172568558int, 128485532290431395849383754828917081638int, 9204327564639905544890850460089104151742int);
        times_n(577622int, 9204327564639905544890850460089104151742int, 1037994161906531437323669468288553891210int, 1481823960754217163519314603412229888226int);
        square_n(577623int, 1481823960754217163519314603412229888226int, 163527938802841635104452170192140004766int, 507829707507189837722842138992144086022int);
        times_n(1155246int, 507829707507189837722842138992144086022int, 57269177778962153342688378225973716339int, 8235561843964132163576398075428249249465int);
        square_n(1155247int, 8235561843964132163576398075428249249465int, 5051091112236665023557423320220625641158int, 2518185107145506355969293080549519747723int);
        square_n(2310494int, 2518185107145506355969293080549519747723int, 472252253602468071681320674493314512033int, 4908000522963463060309130425043006193352int);
        times_n(4620988int, 4908000522963463060309130425043006193352int, 553487025933500167692148544881005139689int, 709827221836958951377578157012489181655int);
        square_n(4620989int, 709827221836958951377578157012489181655int, 37523560259797033999897767459606986095int, 10983359111258580937700994637316788561970int);
    }
    assert(primes::power_is(1514272753416439075498401041775419479098int, 13427688667394608761327070753331941386769int, 295743322int, 7856600988077702767912035748277360472413int)) by {
        square_n(9241978int, 10983359111258580937700994637316788561970int, 8983986772034213788584702215916915569199int, 12704153682697518423470547003017487752869int);
        times_n(18483956int, 12704153682697518423470547003017487752869int, 1432677972616165246679269211248475621488int, 10160523581311485699078772045258679739890int);
        square_n(18483957int, 10160523581311485699078772045258679739890int, 7688310475731177039274667611400342810053int, 1073060735606229014392691609566882823343int);
        times_n(36967914int, 1073060735606229014392691609566882823343int, 121011640568875106513619720404056853007int, 6752336019572910441039291259571047320231int);
        square_n(36967915int, 6752336019572910441039291259571047320231int, 3395524192628484955548646715481874201395int, 12954806232250394914152758671745567550606int);
        square_n(73935830int, 12954806232250394914152758671745567550606int, 12498577281038297766596261606067836552084int, 12266163286735653122160132330239913990640int);
        times_n(147871660int, 12266163286735653122160132330239913990640int, 1383284742009499798970881759007579778498int, 6202015958491260768207118379363279749758int);
        square_n(147871661int, 6202015958491260768207118379363279749758int, 2864603350745075361094549946149211130679int, 7856600988077702767912035748277360472413int);
    }
    assert(primes::power_is(1514272753416439075498401041775419479098int, 13427688667394608761327070753331941386769int, 18927572645int, 10073036355572569279721708353553638742529int)) by {
        square_n(295743322int, 7856600988077702767912035748277360472413int, 4596932548469664751085965745902123849354int, 6369877521139798934722658446207329245343int);
        times_n(591486644int, 6369877521139798934722658446207329245343int, 718346411790423078397256003247720281625int, 5548434272339694617733447451240773520989int);
        square_n(591486645int, 5548434272339694617733447451240773520989int, 2292659864033546469261255311478493303639int, 11944496436698835499722505391830569385730int);
        square_n(1182973290int, 11944496436698835499722505391830569385730int, 10625134277409025608883495256644264997901int, 10011609788969419906458071204924713461031int);
        square_n(2365946580int, 10011609788969419906458071204924713461031int, 7464600427471522330672537245077462218824int, 4487829906918574067417405444288459243305int);
        times_n(4731893160int, 4487829906918574067417405444288459243305int, 506103374776325368574310891880269616793int, 13070837074781695013324732564681713527073int);
        square_n(4731893161int, 13070837074781695013324732564681713527073int, 12723469099364910485005593112797296950696int, 2890291904214977214495958641584644206105int);
        square_n(9463786322int, 2890291904214977214495958641584644206105int, 622131440376293355430459289937601959095int, 10950267777940655423564764026820207056970int);
        times_n(18927572644int, 10950267777940655423564764026820207056970int, 1234888039891296856277656361139260151699int, 10073036355572569279721708353553638742529int);
    }
    assert(primes::power_is(1514272753416439075498401041775419479098int, 13427688667394608761327070753331941386769int, 1211364649289int, 6691074527783104598024806768773181493735int)) by {
        square_n(18927572645int, 10073036355572569279721708353553638742529int, 7556480041652194134602405754157715412182int, 8220049030525750940897692196554837095883int);
        square_n(37855145290int, 8220049030525750940897692196554837095883int, 5032080184307540662414409676486465815007int, 3736831547784769867281556739745944107306int);
        square_n(75710290580int, 3736831547784769867281556739745944107306int, 1039934002225340077250784814393583401583int, 10424555550525268348653933396823992722309int);
        times_n(151420581160int, 10424555550525268348653933396823992722309int, 1175602207323103259397106144367641192688int, 9027908412451177063107897856123881052210int);
        square_n(151420581161int, 9027908412451177063107897856123881052210int, 6069781056326865711855008786370196232877int, 9833978925480020292066288883805695279687int);
        square_n(302841162322int, 9833978925480020292066288883805695279687int, 7202069090387197829270701793282599334208int, 10756850056258631626002112613913534524017int);
        square_n(605682324644int, 10756850056258631626002112613913534524017int, 8617255433826099289957137030148308831799int, 71795385243020252878509398516324748858int);
        times_n(1211364649288int, 71795385243020252878509398516324748858int, 8096538308825483529038743406084531821int, 6691074527783104598024806768773181493735int);
    }
    assert(primes::power_is(1514272753416439075498401041775419479098int, 13427688667394608761327070753331941386769int, 38763668777274int, 10607943791330978244265794726327644894070int)) by {
        square_n(1211364649289int, 6691074527783104598024806768773181493735int, 3334190972498528157568908680224533088130int, 5485830847164035402017277754887551298255int);
        times_n(2422729298578int, 5485830847164035402017277754887551298255int, 618650341654350155340920951844083849682int, 8972482033706874165718223234886516716532int);
        square_n(2422729298579int, 8972482033706874165718223234886516716532int, 5995479627158589363148970393105673949866int, 9742767767192014228083140887800620384070int);
        times_n(4845458597158int, 9742767767192014228083140887800620384070int, 1098715358850017710179968792761133581094int, 4091974342152561700135544712002617023574int);
        square_n(4845458597159int, 4091974342152561700135544712002617023574int, 1246994507512944791385594393987307323133int, 9010379414434768031253352814429657906199int);
        square_n(9690917194318int, 9010379414434768031253352814429657906199int, 6046233212809709585943040393253909041071int, 8262556257089333639849728445013965638002int);
        times_n(19381834388636int, 8262556257089333639849728445013965638002int, 931788345976639738372162235653772118818int, 1903843627286893679735508016427712363154int);
        square_n(19381834388637int, 1903843627286893679735508016427712363154int, 269936297075631125730071185525593271534int, 10607943791330978244265794726327644894070int);
    }
    assert(primes::power_is(1514272753416439075498401041775419479098int, 13427688667394608761327070753331941386769int, 1240437400872795int, 11426559154959037617314246531609664421887int)) by {
        square_n(38763668777274int, 10607943791330978244265794726327644894070int, 8380330693344224599836604712585484928488int, 5912694707023797053792680163486006789628int);
        times_n(77527337554548int, 5912694707023797053792680163486006789628int, 666788806018167565386525100656404182789int, 13004604867571674455238080640482207076803int);
        square_n(77527337554549int, 13004604867571674455238080640482207076803int, 12594851723985003952972899377601269266950int, 3232835187846972355341642202931281716259int);
        times_n(155054675109098int, 3232835187846972355341642202931281716259int, 364574601221555231364259254692548606883int, 8083672727350615007209154531363178723355int);
        square_n(155054675109099int, 8083672727350615007209154531363178723355int, 4866493883015478865574112565454018506954int, 9941131383202386944190626443665992364399int);
        square_n(310109350218198int, 9941131383202386944190626443665992364399int, 7359873737470765595818069549904053249051int, 7570855706325910582778043164761329424982int);
        times_n(620218700436396int, 7570855706325910582778043164761329424982int, 853783610873749623804936102230538772427int, 12626449597033641213716536683081028207873int);
        square_n(620218700436397int, 12626449597033641213716536683081028207873int, 11873020992328746437769600666235815494612int, 5390522893786245916596187695985171595501int);
        times_n(1240437400872794int, 5390522893786245916596187695985171595501int, 607902234473825697037718812332648940419int, 11426559154959037617314246531609664421887int);
    }
    assert(primes::power_is(1514272753416439075498401041775419479098int, 13427688667394608761327070753331941386769int, 2480874801745591int, 9785822746442342713677375315050249518427int)) by {
        square_n(1240437400872795int, 11426559154959037617314246531609664421887int, 9723658133273664108233054007678685652007int, 10227276927209478101749614147383396545386int);
        times_n(2480874801745590int, 10227276927209478101749614147383396545386int, 1153354622387357956930780725254897435929int, 9785822746442342713677375315050249518427int);
    }
    primes::lemma_power_one(11079643483354044030555362120445414701546int, 13427688667394608761327070753331941386769int);
    assert(primes::power_is(11079643483354044030555362120445414701546int, 13427688667394608761327070753331941386769int, 70int, 2451154501880406134732628457726403646211int)) by {
        square_n_x(1int, 11079643483354044030555362120445414701546int, 9142191389670395144015446400242595837569int, 1412269077777152287427131589271325065555int);
        square_n_x(2int, 1412269077777152287427131589271325065555int, 148536654181491706743341001206609668129int, 5524357512551390817878878323801925872824int);
        square_n_x(4int, 5524357512551390817878878323801925872824int, 2272805594650753690836647412032428085764int, 814009455366653984902717929767994878460int);
        square_n_x(8int, 814009455366653984902717929767994878460int, 49346645564942485667245810358841552058int, 10122691371326735853234142036317346050998int);
        times_n_x(16int, 10122691371326735853234142036317346050998int, 8352577592796259916095285138184621028952int, 1000979228615337817096439653029286706820int);
        square_n_x(17int, 1000979228615337817096439653029286706820int, 74618904335511985787391341351440486109int, 10619113650791253948867898484567693620579int);
        times_n_x(34int, 10619113650791253948867898484567693620579int, 8762192531740775611800554031572208732895int, 4382870394156370570437712231264840648879int);
        square_n_x(35int, 4382870394156370570437712231264840648879int, 1430592663249443116131840150909779041470int, 2451154501880406134732628457726403646211int);
    }
    assert(primes::power_is(11079643483354044030555362120445414701546int, 13427688667394608761327070753331941386769int, 9025int, 6521294863714530090832878865993001530532int)) by {
        square_n_x(70int, 2451154501880406134732628457726403646211int, 447445464436311838790734409143668883039int, 12956073047997011844789968923116731545530int);
        times_n_x(140int, 12956073047997011844789968923116731545530int, 10690497364946128661126474023237161942955int, 7490139402583275448238164035935090626985int);
        square_n_x(141int, 7490139402583275448238164035935090626985int, 4178097188562246003271391862560952059099int, 1401469199872877832534739791952305529094int);
        square_n_x(282int, 1401469199872877832534739791952305529094int, 146273567018397684170891818474941359624int, 12989735536517931319512052989458376045980int);
        square_n_x(564int, 12989735536517931319512052989458376045980int, 12566066542665552336168088976098959049063int, 1636099779954555463160351005945344112953int);
        square_n_x(1128int, 1636099779954555463160351005945344112953int, 199350949837499622686642920378439087844int, 9001598269529584304064279786361652044173int);
        square_n_x(2256int, 9001598269529584304064279786361652044173int, 6034454135264078967134728746046347023129int, 10721055997445987980214872069454365673728int);
        square_n_x(4512int, 10721055997445987980214872069454365673728int, 8560001988985252695322513308588147775883int, 2982278323388046623940511823593315925957int);
        times_n_x(9024int, 2982278323388046623940511823593315925957int, 2460779469180654481483620367520624397710int, 6521294863714530090832878865993001530532int);
    }
    assert(primes::power_is(11079643483354044030555362120445414701546int, 13427688667394608761327070753331941386769int, 288811int, 9204978914522395551480602929853844796475int)) by {
        square_n_x(9025int, 6521294863714530090832878865993001530532int, 3167133804850208390926813001607825098580int, 10493014767819007127461331354245195515004int);
        square_n_x(18050int, 10493014767819007127461331354245195515004int, 8199725332105965828512475733899721848471int, 10793811556990999510069547982244966839817int);
        times_n_x(36100int, 10793811556990999510069547982244966839817int, 8906341727177637941519696001701963488016int, 13330652976501220303084003567520491796778int);
        square_n_x(36101int, 13330652976501220303084003567520491796778int, 13234318517632224931662339278572247464464int, 11487714043771522997661873661966643904468int);
        square_n_x(72202int, 11487714043771522997661873661966643904468int, 9828018598011723975116941940380657739504int, 13172385029921318318274896433829396140448int);
        times_n_x(144404int, 13172385029921318318274896433829396140448int, 10868983752310668805327020564980223943348int, 999711592089269003222135679937405969996int);
        square_n_x(144405int, 999711592089269003222135679937405969996int, 74430029777535818168432020188594317295int, 378582897621415878257351417486551370161int);
        times_n_x(288810int, 378582897621415878257351417486551370161int, 312381649473727935665717810022763376799int, 9204978914522395551480602929853844796475int);
    }
    assert(primes::power_is(11079643483354044030555362120445414701546int, 13427688667394608761327070753331941386769int, 9241978int, 9004074178548871469106014214585258606870int)) by {
        square_n_x(288811int, 9204978914522395551480602929853844796475int, 6310217559820925235455515622792584885051int, 72807124071691152874342420456775135406int);
        times_n_x(577622int, 72807124071691152874342420456775135406int, 60075639057781548792140103862468091202int, 1732308552980332237766796099892979431338int);
        square_n_x(577623int, 1732308552980332237766796099892979431338int, 223485440946783550451813834273374451739int, 10495238338779541063485819286279132828953int);
        times_n_x(1155246int, 10495238338779541063485819286279132828953int, 8659978790606626245901939910388759275469int, 10629991095228416126113540250299619791677int);
        square_n_x(1155247int, 10629991095228416126113540250299619791677int, 8415201862627063351677150519903632054889int, 566601836089887094037496107793092108688int);
        square_n_x(2310494int, 566601836089887094037496107793092108688int, 23908630041444252242663206814765718469int, 4535145979563202966289027043737909544683int);
        times_n_x(4620988int, 4535145979563202966289027043737909544683int, 3742103488036588350223488274951019703043int, 6455565540039680275665828893187206941851int);
        square_n_x(4620989int, 6455565540039680275665828893187206941851int, 3103611311970783916072765290745346026899int, 9004074178548871469106014214585258606870int);
    }
    assert(primes::power_is(11079643483354044030555362120445414701546int, 13427688667394608761327070753331941386769int, 295743322int, 2495441231131202476099401987273026187147int)) by {
        square_n_x(9241978int, 9004074178548871469106014214585258606870int, 6037774171043637881325769286980203031154int, 9120411300440695728265567902977140795474int);
        times_n_x(18483956int, 9120411300440695728265567902977140795474int, 7525562152465616432028636092781053422916int, 1223376797776920865935098317061453804400int);
        square_n_x(18483957int, 1223376797776920865935098317061453804400int, 111460045463603242485429048173347536061int, 12707148660358419041368348317155883583091int);
        times_n_x(36967914int, 12707148660358419041368348317155883583091int, 10485101370321614654422342382944887996109int, 2688397665858452496491275035595921076865int);
        square_n_x(36967915int, 2688397665858452496491275035595921076865int, 538252128777985212283990615101456799543int, 302711604129789542645110850493372781658int);
        square_n_x(73935830int, 302711604129789542645110850493372781658int, 6824280599932195045091861246518336917int, 2824106765292226770014766050735993177791int);
        times_n_x(147871660int, 2824106765292226770014766050735993177791int, 2330266726718601048591235828767330687303int, 644256743821925655385650500902660070879int);
        square_n_x(147871661int, 644256743821925655385650500902660070879int, 30911258239692733546481073260684445526int, 2495441231131202476099401987273026187147int);
    }
    assert(primes::power_is(11079643483354044030555362120445414701546int, 13427688667394608761327070753331941386769int, 18927572645int, 13225116103650817473324814773586626128563int)) by {
        square_n_x(295743322int, 2495441231131202476099401987273026187147int, 463760152046918744575075203055699538459int, 8336951785534065210123860273554958750638int);
        times_n_x(591486644int, 8336951785534065210123860273554958750638int, 6879103009434915800982178121849019634629int, 6199678053643813946131559304905852262647int);
        square_n_x(591486645int, 6199678053643813946131559304905852262647int, 2862444082589124843589159407098499825328int, 246393361703778810222070535808881161377int);
        square_n_x(1182973290int, 246393361703778810222070535808881161377int, 4521231478884798367967936337626865906int, 11001878171949904443767770539295470938415int);
        square_n_x(2365946580int, 11001878171949904443767770539295470938415int, 9014308144062262551101375364046614505870int, 11458791652904512818274524069801231878195int);
        times_n_x(4731893160int, 11458791652904512818274524069801231878195int, 9455039464275073725841962893781610803518int, 4599473920385754229190496164969646336128int);
        square_n_x(4731893161int, 4599473920385754229190496164969646336128int, 1575487849645940716738018708328286109901int, 10047449104462590568572996667916076732515int);
        square_n_x(9463786322int, 10047449104462590568572996667916076732515int, 7518139272315568766823594855238995569238int, 5978798688474110423705344471850581613203int);
        times_n_x(18927572644int, 5978798688474110423705344471850581613203int, 4933310532280242895610090537870021172475int, 13225116103650817473324814773586626128563int);
    }
    assert(primes::power_is(11079643483354044030555362120445414701546int, 13427688667394608761327070753331941386769int, 1211364649289int, 7468386474638504784587624369103674675658int)) by {
        square_n_x(18927572645int, 13225116103650817473324814773586626128563int, 13025599586602640746509307793827475811810int, 9553524776881199194914284873797936503079int);
        square_n_x(37855145290int, 9553524776881199194914284873797936503079int, 6797136716768409205984126574793692357917int, 1162020295178476418494968018016500280068int);
        square_n_x(75710290580int, 1162020295178476418494968018016500280068int, 100560208078511560475349251405620127740int, 1504737311298165588612433747887912212564int);
        times_n_x(151420581160int, 1504737311298165588612433747887912212564int, 1241610031201243645864466880036870530728int, 8801065343137147506600137695481224286112int);
        square_n_x(151420581161int, 8801065343137147506600137695481224286112int, 5768584087167342287189575678397932849922int, 3574520198476054468620879531955002594526int);
        square_n_x(302841162322int, 3574520198476054468620879531955002594526int, 951555771496187578890182670359029325001int, 4544797644503111237335469148821622852907int);
        square_n_x(605682324644int, 4544797644503111237335469148821622852907int, 1538253242319832530707443713185460973127int, 11592767394071615911592078351733135993986int);
        times_n_x(1211364649288int, 11592767394071615911592078351733135993986int, 9565587413689039589865888697899235009642int, 7468386474638504784587624369103674675658int);
    }
    assert(primes::power_is(11079643483354044030555362120445414701546int, 13427688667394608761327070753331941386769int, 38763668777274int, 12666538734432238179499142937318780169533int)) by {
        square_n_x(1211364649289int, 7468386474638504784587624369103674675658int, 4153864296094511350752490870540040083519int, 6808212190935660510557084905648056172853int);
        times_n_x(2422729298578int, 6808212190935660510557084905648056172853int, 5617687876377321779814684977255554510154int, 4075769320691373626044124535770730578312int);
        square_n_x(2422729298579int, 4075769320691373626044124535770730578312int, 1237137378365523879433370984605979518347int, 9497318773257790972735396524436106218501int);
        times_n_x(4845458597158int, 9497318773257790972735396524436106218501int, 7836561351841278260393820651193964797628int, 12377091569514069884294644967970816718614int);
        square_n_x(4845458597159int, 12377091569514069884294644967970816718614int, 11408694341575047413209158883062664767694int, 4368214085241604346503030117550863840310int);
        square_n_x(9690917194318int, 4368214085241604346503030117550863840310int, 1421040863185690293382569182287096022512int, 3107957706852203789102406758583857952372int);
        times_n_x(19381834388636int, 3107957706852203789102406758583857952372int, 2564481811146018808607205013814401361284int, 11694935349132232679070195008860716315716int);
        square_n_x(19381834388637int, 11694935349132232679070195008860716315716int, 10185782245048179605045779215853157858467int, 12666538734432238179499142937318780169533int);
    }
    assert(primes::power_is(11079643483354044030555362120445414701546int, 13427688667394608761327070753331941386769int, 1240437400872795int, 13395792029760145837911260292514816229376int)) by {
        square_n_x(38763668777274int, 12666538734432238179499142937318780169533int, 11948534664827230729410898642135358383545int, 11934028338600588202903996701750731121984int);
        times_n_x(77527337554548int, 11934028338600588202903996701750731121984int, 9847173447877849505042602587190029617554int, 11829573051862191459388660122739613644238int);
        square_n_x(77527337554549int, 11829573051862191459388660122739613644238int, 10421659457233801247316683913951683021410int, 13383798019585126488399546096667512876354int);
        times_n_x(155054675109098int, 13383798019585126488399546096667512876354int, 11043427814222293621885947309073675724766int, 8393659687935402978068677826291712622230int);
        square_n_x(155054675109099int, 8393659687935402978068677826291712622230int, 5246883860805363142767985956486525156787int, 9473778823849435484106395911420757821697int);
        square_n_x(310109350218198int, 9473778823849435484106395911420757821697int, 6684135105184322103629677404140193389470int, 205928704627575288717879750686122037379int);
        times_n_x(620218700436396int, 205928704627575288717879750686122037379int, 169918791444928492585075744842636658605int, 6740059885760323476984927782560624090689int);
        square_n_x(620218700436397int, 6740059885760323476984927782560624090689int, 3383188900852732943229235942689021967646int, 222031068130504320454798366149806018947int);
        times_n_x(1240437400872794int, 222031068130504320454798366149806018947int, 183205400277693637252080876200267305694int, 13395792029760145837911260292514816229376int);
    }
    assert(primes::power_is(11079643483354044030555362120445414701546int, 13427688667394608761327070753331941386769int, 2480874801745591int, 1int)) by {
        square_n_x(1240437400872795int, 13395792029760145837911260292514816229376int, 13363971160600629365800061596085530856629int, 9335018442023270962428499490951468807675int);
        times_n_x(2480874801745590int, 9335018442023270962428499490951468807675int, 7702641817969804814882625026579070078621int, 1int);
    }
    primes::lemma_power_power(1514272753416439075498401041775419479098int, 13427688667394608761327070753331941386769int, 173171039int, 2480874801745591int, 11079643483354044030555362120445414701546int);
    primes::lemma_pocklington_pair(13427688667394608761327070753331941386769int, 173171039int, 2480874801745591int, 1514272753416439075498401041775419479098int, 11079643483354044030555362120445414701546int, 9785822746442342713677375315050249518427int, 570957467604342int, 39854207int, 8400704698881656509131354358865537047819int, 6122260439957911926599827184786105782797int, 6785926852418085198570490017495330175623int, 5599299484168009323850478809842907506686int);
}

proof fn square_p(e: int, x: int, k: int, y: int)
    requires
        primes::power_is(20520420087326380218354900027015874311863624918437260220194913954166250002289int, 21888242871839275222246405745257275088696311157297823662689037894645226208583int, e, x),
        x * x == 21888242871839275222246405745257275088696311157297823662689037894645226208583int * k + y,
        0 <= y < 21888242871839275222246405745257275088696311157297823662689037894645226208583int,
    ensures
        primes::power_is(20520420087326380218354900027015874311863624918437260220194913954166250002289int, 21888242871839275222246405745257275088696311157297823662689037894645226208583int, 2 * e, y),
{
    primes::lemma_power_square(20520420087326380218354900027015874311863624918437260220194913954166250002289int, 21888242871839275222246405745257275088696311157297823662689037894645226208583int, e, x, k, y);
}

proof fn times_p(e: int, x: int, k: int, y: int)
    requires
        primes::power_is(20520420087326380218354900027015874311863624918437260220194913954166250002289int, 21888242871839275222246405745257275088696311157297823662689037894645226208583int, e, x),
        x * 20520420087326380218354900027015874311863624918437260220194913954166250002289int == 21888242871839275222246405745257275088696311157297823662689037894645226208583int * k + y,
        0 <= y < 21888242871839275222246405745257275088696311157297823662689037894645226208583int,
    ensures
        primes::power_is(20520420087326380218354900027015874311863624918437260220194913954166250002289int, 21888242871839275222246405745257275088696311157297823662689037894645226208583int, e + 1, y),
{
    primes::lemma_power_times(20520420087326380218354900027015874311863624918437260220194913954166250002289int, 21888242871839275222246405745257275088696311157297823662689037894645226208583int, e, x, k, y);
}

/// The order of an element modulo `p` is divisible by the prime above.
pub proof fn lemma_prime_p()
    ensures
        primes::prime(21888242871839275222246405745257275088696311157297823662689037894645226208583int),
{
    lemma_prime_n();
    primes::lemma_power_one(20520420087326380218354900027015874311863624918437260220194913954166250002289int, 21888242871839275222246405745257275088696311157297823662689037894645226208583int);
    assert(primes::power_is(20520420087326380218354900027015874311863624918437260220194913954166250002289int, 21888242871839275222246405745257275088696311157297823662689037894645226208583int, 39int, 20846724391401744837767268903091488754085576514495268749495906647262146215539int)) by {
        square_p(1int, 20520420087326380218354900027015874311863624918437260220194913954166250002289int, 19238074203850603232075934733970503619080248404937198273859482994282858037284int, 1168350874092745625405749664249284140222932432086006564121548311108330430949int);
        square_p(2int, 1168350874092745625405749664249284140222932432086006564121548311108330430949int, 62364246092568038487843797424838160046389053177325094074683747031571159708int, 12084850875733009551105854211970485156906309794495034472951121415634843666837int);
        square_p(4int, 12084850875733009551105854211970485156906309794495034472951121415634843666837int, 6672240505728306605573235773690991160564166835151540889568402418069339256107int, 1728711361824467244428017976948836031851166774962390661835532357162615018188int);
        times_p(8int, 1728711361824467244428017976948836031851166774962390661835532357162615018188int, 1620682096871819815405055300783697389587096132150360566998608716917243440679int, 1944099738983215340511157305465284169323853253662281453403900640043735484475int);
        square_p(9int, 1944099738983215340511157305465284169323853253662281453403900640043735484475int, 172673695976629647393611546709552966557130308767821777230812719950591596253int, 6606581569194768481367769750379802743582402588503580492522530682077866786126int);
        times_p(18int, 6606581569194768481367769750379802743582402588503580492522530682077866786126int, 6193728292163846686812800520056982624145203360743723426857896631072321168465int, 2767581608560203884827991219266359153093887989819017746943776761720201507319int);
        square_p(19int, 2767581608560203884827991219266359153093887989819017746943776761720201507319int, 349937087453244938650308336451998425223665288634199571804742323686370281678int, 7961691111392704383334592276267692400734401072117462637351479690417919325487int);
        times_p(38int, 7961691111392704383334592276267692400734401072117462637351479690417919325487int, 7464155399221504890751328277347198580542443196201023125577143987089850818388int, 20846724391401744837767268903091488754085576514495268749495906647262146215539int);
    }
    assert(primes::power_is(20520420087326380218354900027015874311863624918437260220194913954166250002289int, 21888242871839275222246405745257275088696311157297823662689037894645226208583int, 1262int, 11563494126660254421990594607155083764770268681978913414181913347425770478200int)) by {
        square_p(39int, 20846724391401744837767268903091488754085576514495268749495906647262146215539int, 19854764971115567279117329503899493399406501039129702697745576689544002590458int, 352097487885586148848495007416804207701158182008040625024147747874011559507int);
        square_p(78int, 352097487885586148848495007416804207701158182008040625024147747874011559507int, 5663891875708295668181057207827350864117154958506018584890447652899248371int, 21295925724000722465762284391551415268997489023823679378766583721747433114756int);
        times_p(156int, 21295925724000722465762284391551415268997489023823679378766583721747433114756int, 19965117554832470942377181727841006688349343770633454679777441340208259975795int, 2474904033221529360040703593810585053108044259776351193309008100264198427999int);
        square_p(157int, 2474904033221529360040703593810585053108044259776351193309008100264198427999int, 279837445587586118661721248579251909492847035076450117132476337806636222088int, 19185403589486437399248030573162535943376532227060806873147958730587787362697int);
        times_p(314int, 19185403589486437399248030573162535943376532227060806873147958730587787362697int, 17986484502493965288937086377846749084862141476873496206633107193652807344359int, 3879501965817328533789451323327343293121890226046011222319372100927080780136int);
        square_p(315int, 3879501965817328533789451323327343293121890226046011222319372100927080780136int, 687608210074462491014855789301031763240037691955976282778192760406524298936int, 4398832226009647346365217664841709411687112101215341306295512134236991210808int);
        times_p(630int, 4398832226009647346365217664841709411687112101215341306295512134236991210808int, 4123943877081162673224691745315925051670549548939246087960999641294192346018int, 11362048079661685016912077362612320736592260745580003979125142086970704067018int);
        square_p(631int, 11362048079661685016912077362612320736592260745580003979125142086970704067018int, 5897967110490847702481916213442917428185585319778630810893887287616108168628int, 11563494126660254421990594607155083764770268681978913414181913347425770478200int);
    }
    assert(primes::power_is(20520420087326380218354900027015874311863624918437260220194913954166250002289int, 21888242871839275222246405745257275088696311157297823662689037894645226208583int, 40407int, 21538327222366393657617722530675043986586386126492211785491518833249803232165int)) by {
        square_p(1262int, 11563494126660254421990594607155083764770268681978913414181913347425770478200int, 6108959828353281685381564891707885821262293835797632271754686220033393691784int, 13751489027580514238977525877790418466672739463836521784870796610277077857928int);
        times_p(2524int, 13751489027580514238977525877790418466672739463836521784870796610277077857928int, 12892141837262942356407921950708442964700299733257772819870889751282751014321int, 11686331258361405336797681148160758292765303287808588315347384366424850680049int);
        square_p(2525int, 11686331258361405336797681148160758292765303287808588315347384366424850680049int, 6239438180570536747078891855689180623657337318819025567727433179191053618605int, 14766950660098502109673966672250918341025562854113545034889533010531107155686int);
        square_p(5050int, 14766950660098502109673966672250918341025562854113545034889533010531107155686int, 9962555380739875074534934224330088226105587402163586868248156122687682612206int, 7148923783416660390600253137593975048922122109987333140615026668742184366498int);
        times_p(10100int, 7148923783416660390600253137593975048922122109987333140615026668742184366498int, 6702178885118583806937770743407644043415873567183889947765163420881781550853int, 8700259349505545606454443131906551732443073823376839020539284475833515342623int);
        square_p(10101int, 8700259349505545606454443131906551732443073823376839020539284475833515342623int, 3458227012184922284839528414708959601758887928437408207787552373576743595516int, 9279150787008645725563532796913990771884670965570465747729998015621081006301int);
        times_p(20202int, 9279150787008645725563532796913990771884670965570465747729998015621081006301int, 8699285425420821982834053381504210660900895074042192060081083882090107941930int, 20561467795377180608911723914660049250262709454751438565084138847484641837799int);
        square_p(20203int, 20561467795377180608911723914660049250262709454751438565084138847484641837799int, 19315116356108265395111629224126942476013670638973219919201155389444419246110int, 16609878247643725539532781932485662889662402360423440728653925135321753802271int);
        times_p(40406int, 16609878247643725539532781932485662889662402360423440728653925135321753802271int, 15571906855963755085423840116431251471986654786130596036371447950086047280038int, 21538327222366393657617722530675043986586386126492211785491518833249803232165int);
    }
    assert(primes::power_is(20520420087326380218354900027015874311863624918437260220194913954166250002289int, 21888242871839275222246405745257275088696311157297823662689037894645226208583int, 1293039int, 14471708774685246780963560304828266181559841416594895410675053427033476555520int)) by {
        square_p(40407int, 21538327222366393657617722530675043986586386126492211785491518833249803232165int, 21194005487510731422657742217138350790254362867380875197387139333402698328017int, 14147691653720709577002186291340395157977990237591096175211494963958695817314int);
        square_p(80814int, 14147691653720709577002186291340395157977990237591096175211494963958695817314int, 9144506496054763573867296889749153565710618951847533894936078956727863421217int, 2326191518174917314948607223373080889278871140129922726410016915262432469085int);
        times_p(161628int, 2326191518174917314948607223373080889278871140129922726410016915262432469085int, 2180824995227846006036871873198812429684194158939589129640818385817678241637int, 10397351369704481530066465699145675313052645251701581862648006485833534365194int);
        square_p(161629int, 10397351369704481530066465699145675313052645251701581862648006485833534365194int, 4938949011945588468428300545805630932285149671954375090282214673115073357175int, 16299267186611700458381441027114396792188009629462854839018830371421949024611int);
        times_p(323258int, 16299267186611700458381441027114396792188009629462854839018830371421949024611int, 15280706256013004918913276455819825321429940390872571712418529819865842360938int, 12860720477097617155221537428952288341009522542263126136704262592840907803725int);
        square_p(323259int, 12860720477097617155221537428952288341009522542263126136704262592840907803725int, 7556482818583578235286014967001956778792188161380629686475687497912593279386int, 20042724030773446009167636284234741478637376736815460350758103294047893705587int);
        times_p(646518int, 20042724030773446009167636284234741478637376736815460350758103294047893705587int, 18790229951942331125431476357133814641550061072947714122585734347101003582088int, 10383822259845886481468339656286319156087626983945751301243728330525391427339int);
        square_p(646519int, 10383822259845886481468339656286319156087626983945751301243728330525391427339int, 4926104180925075392735345686188998595640290508588358927729261845262335609151int, 1567975565361860071904999315455674797902833534730824180866385563500227077888int);
        times_p(1293038int, 1567975565361860071904999315455674797902833534730824180866385563500227077888int, 1469990874840138926947989365116606997307946882740236001837698184206611057664int, 14471708774685246780963560304828266181559841416594895410675053427033476555520int);
    }
    assert(primes::power_is(20520420087326380218354900027015874311863624918437260220194913954166250002289int, 21888242871839275222246405745257275088696311157297823662689037894645226208583int, 82754520int, 20659254206715413051784765495862014660589487440258824774427229585718386370884int)) by {
        square_p(1293039int, 14471708774685246780963560304828266181559841416594895410675053427033476555520int, 9568166621942434385609363193396710752876752596361220734232758990171812299436int, 21401020979764980223770661378921917472077668109764722194139176342466253211212int);
        square_p(2586078int, 21401020979764980223770661378921917472077668109764722194139176342466253211212int, 20924644415637126657506760525399810180320619555548884225654586933325434554709int, 9586791544135392027690327627539345186009558242081360315810857311716923641597int);
        times_p(5172156int, 9586791544135392027690327627539345186009558242081360315810857311716923641597int, 8987701339351765350350096006393673971466405543969388229482586698500360100080int, 10417829005017018226679789808694508713970944863600548150013975718710630628893int);
        square_p(5172157int, 10417829005017018226679789808694508713970944863600548150013975718710630628893int, 4958422739241743980627100800745221126273732440669513901839709751192645120774int, 16108782399874635067601475999763853269041098677498178897441047400838536002207int);
        times_p(10344314int, 16108782399874635067601475999763853269041098677498178897441047400838536002207int, 15102125094109034397389531952369932062205854058431131586119289732206317684689int, 3138654901818867971134174862189110535395720176892013590054855186816319566136int);
        square_p(10344315int, 3138654901818867971134174862189110535395720176892013590054855186816319566136int, 450066030900351227892106830109971744467914419011059414580099453239902766627int, 4592105941752678591243889642703385869843317038661168085541475472155804610955int);
        square_p(20688630int, 4592105941752678591243889642703385869843317038661168085541475472155804610955int, 963413879485533681182588712563871455351703194006315502318617029392071353383int, 10348691011700320939498571401698734146090747040917771178168500168520245325736int);
        square_p(41377260int, 10348691011700320939498571401698734146090747040917771178168500168520245325736int, 4892827911436993069150673133420649373922118871360394634363504552822454710564int, 20659254206715413051784765495862014660589487440258824774427229585718386370884int);
    }
    assert(primes::power_is(20520420087326380218354900027015874311863624918437260220194913954166250002289int, 21888242871839275222246405745257275088696311157297823662689037894645226208583int, 2648144659int, 7127705300160167733067409551901352848585007536958176169886957649442609592151int)) by {
        square_p(82754520int, 20659254206715413051784765495862014660589487440258824774427229585718386370884int, 19499271224132938553250126003188317863309648437382547047151077544790567991380int, 5471090929630167168197646057370643468116177195695438920401882574688776926916int);
        times_p(165509040int, 5471090929630167168197646057370643468116177195695438920401882574688776926916int, 5129195836748225869769082037913243307568850468412546617561568613502978349495int, 18733155059020248422630231817741491482550861412275862196715381073401442995139int);
        square_p(165509041int, 18733155059020248422630231817741491482550861412275862196715381073401442995139int, 16032858394347992172847972846626207653612161560000781415336737773026004153987int, 4457743481490746983030292861530319579698474714964429457194035918730664558900int);
        square_p(331018082int, 4457743481490746983030292861530319579698474714964429457194035918730664558900int, 907860766308439626582391642477264449123918873367780896749832541878605193206int, 12131517647158159441697630955355587916259969034116491213712492811889998722902int);
        square_p(662036164int, 12131517647158159441697630955355587916259969034116491213712492811889998722902int, 6723870951407384282487541732196194806198985071103615595150091138730434053609int, 7897645571827279826486544396629371799762097480545627345238349881144141375557int);
        times_p(1324072328int, 7897645571827279826486544396629371799762097480545627345238349881144141375557int, 7404112142926461850110519060004694102588577797240888114441798879800628299362int, 14142029604359203322089452243374140744066391812010877430440239836692480825927int);
        square_p(1324072329int, 14142029604359203322089452243374140744066391812010877430440239836692480825927int, 9137188512645844943217837957960918890213554409874081787930850223840070902158int, 12248135604199897759036871429175908596477295124145793840429547819233382587215int);
        times_p(2648144658int, 12248135604199897759036871429175908596477295124145793840429547819233382587215int, 11482734788550941509660666627336260106068880517722434841841362909354419157048int, 7127705300160167733067409551901352848585007536958176169886957649442609592151int);
    }
    assert(primes::power_is(20520420087326380218354900027015874311863624918437260220194913954166250002289int, 21888242871839275222246405745257275088696311157297823662689037894645226208583int, 169481258194int, 4317666812919489792284869824098763249925122675670225004545094909709622101153int)) by {
        square_p(2648144659int, 7127705300160167733067409551901352848585007536958176169886957649442609592151int, 2321071780105949499890967879767790742486383036561060660251528666414901835963int, 16648213594016176875134526519638642281640181994209446456598616309542272136372int);
        square_p(5296289318int, 16648213594016176875134526519638642281640181994209446456598616309542272136372int, 12662643479188283631359183689376182912141768940011044409225083520376807523828int, 7054565889184982248752032586888939735196159110849056343119771424364094706660int);
        times_p(10592578636int, 7054565889184982248752032586888939735196159110849056343119771424364094706660int, 6613717529882038894412730327731415040616910173672918870282798166615644668267int, 6327842583942150475080448687104583585543795210673175328600025375382600409079int);
        square_p(10592578637int, 6327842583942150475080448687104583585543795210673175328600025375382600409079int, 1829365289923200008393811304950479233114588640613105560196853665248654795870int, 16444147774164526778733310478442143560922804446458410462622536617238238676031int);
        square_p(21185157274int, 16444147774164526778733310478442143560922804446458410462622536617238238676031int, 12354120776248382891055493941639267625312916870295669747538152181767137814836int, 14622045483212304825714013966419603806050048637503342372913932376724005975573int);
        square_p(42370314548int, 14622045483212304825714013966419603806050048637503342372913932376724005975573int, 9767993500666202015141802842052170594987904431806262095675085544658258904598int, 5013505802753955058942732858821764863299767652292026782453597517645226913695int);
        times_p(84740629096int, 5013505802753955058942732858821764863299767652292026782453597517645226913695int, 4700205758184492240987341554931100619864109980272996424361905717364446603526int, 9831213195888858861822058136959513004629345455691440767732208842685376184197int);
        square_p(84740629097int, 9831213195888858861822058136959513004629345455691440767732208842685376184197int, 4415738324402897667567198305437252281908639273062632948811110424498344473032int, 4317666812919489792284869824098763249925122675670225004545094909709622101153int);
    }
    assert(primes::power_is(20520420087326380218354900027015874311863624918437260220194913954166250002289int, 21888242871839275222246405745257275088696311157297823662689037894645226208583int, 2711700131119int, 941636264960340975346880186109755379357112928352363780151534818477326471554int)) by {
        square_p(169481258194int, 4317666812919489792284869824098763249925122675670225004545094909709622101153int, 851701382177683740956011396666044351898481962507251339152800067540271984297int, 10738199843415713114993631601480973962205494893300275283888216988231141308258int);
        times_p(338962516388int, 10738199843415713114993631601480973962205494893300275283888216988231141308258int, 10067156740665155007684768432670727184752317421216746194054381285232807639648int, 20162117139722321181897659068724538524681277815955873902051579564738605903778int);
        square_p(338962516389int, 20162117139722321181897659068724538524681277815955873902051579564738605903778int, 18572115173250787427024658120035435782165731058139924106095178496769594173278int, 10018458694400361908013293183869200801953596374769902193510308407983921828210int);
        times_p(677925032778int, 10018458694400361908013293183869200801953596374769902193510308407983921828210int, 9392393087026615753691017082759978613235945007963194130504501553843809908119int, 19524190626343331922144267145379958336797818157923733530219833589717605587313int);
        square_p(677925032779int, 19524190626343331922144267145379958336797818157923733530219833589717605587313int, 17415469201697549817141237992086921883081925338346866568329622204441673640810int, 20335448403728916336060154723030438204654731412296618886190651893949585487739int);
        times_p(1355850065558int, 20335448403728916336060154723030438204654731412296618886190651893949585487739int, 19064661624599511254826792748089232416028843853139935312167439641320036007272int, 12641802187603674250120431490860898685268472338467046165455959140055954618995int);
        square_p(1355850065559int, 12641802187603674250120431490860898685268472338467046165455959140055954618995int, 7301415809677176279163021061459419448440617767102737028794028159269230331666int, 5807616428737045699487423734141827727946979221204430603620541749478828920747int);
        times_p(2711700131118int, 5807616428737045699487423734141827727946979221204430603620541749478828920747int, 5444691450178891479644867054834576829764523345372610353879728445299734467263int, 941636264960340975346880186109755379357112928352363780151534818477326471554int);
    }
    assert(primes::power_is(20520420087326380218354900027015874311863624918437260220194913954166250002289int, 21888242871839275222246405745257275088696311157297823662689037894645226208583int, 86774404195834int, 18357269385967211988105606976850639121316699017921302311321967371327894828430int)) by {
        square_p(2711700131119int, 941636264960340975346880186109755379357112928352363780151534818477326471554int, 40509366634872029770443794777074180924923682225529808705602215545448844596int, 20115202162902065150556826996392249234897318552631364369559872646536522807448int);
        times_p(5423400262238int, 20115202162902065150556826996392249234897318552631364369559872646536522807448int, 18858178837886826085379285979636893057061120301528351183767177068236892831696int, 4572420220240383816143940620200393807595713851399178433295607548629896601704int);
        square_p(5423400262239int, 4572420220240383816143940620200393807595713851399178433295607548629896601704int, 955171540853169302162730554104992885723520114362382528040954753135176740270int, 4656549611968262630478568572794456245066109724858118820985240430226579966206int);
        times_p(10846800524478int, 4656549611968262630478568572794456245066109724858118820985240430226579966206int, 4365556191721658214282253983072585607385799004976928644246979644860316132722int, 13056308824348938698977482874313845862155433714008833659393134275383959092608int);
        square_p(10846800524479int, 13056308824348938698977482874313845862155433714008833659393134275383959092608int, 7788071482708632741787624447571197023910315396237013001726800323698818564603int, 21724193469003562520028638604789817221971499682106894427392571879150781654115int);
        square_p(21693601048958int, 21724193469003562520028638604789817221971499682106894427392571879150781654115int, 21561373594126230540149537856979812758925909584033190926355999117114872046405int, 20537618840761948641294350741627441974911317123945445284746624132586911139110int);
        times_p(43387202097916int, 20537618840761948641294350741627441974911317123945445284746624132586911139110int, 19254198186371387250483390240733781795283427753976275108715386113840314176306int, 11727516494308984355476307727759310330795768455549215015827479869010104988392int);
        square_p(43387202097917int, 11727516494308984355476307727759310330795768455549215015827479869010104988392int, 6283494016837552361838597309692007265318914215434323170786912529641310596798int, 18357269385967211988105606976850639121316699017921302311321967371327894828430int);
    }
    assert(primes::power_is(20520420087326380218354900027015874311863624918437260220194913954166250002289int, 21888242871839275222246405745257275088696311157297823662689037894645226208583int, 5553561868533410int, 8346323319556107748934268901371877540488759878517159301432007640857446486904int)) by {
        square_p(86774404195834int, 18357269385967211988105606976850639121316699017921302311321967371327894828430int, 15395906436259847249666911523846107585828288165495049268466475548699459003434int, 1973876352534487507342732723472343035713847827443673414192696246175738990878int);
        times_p(173548808391668int, 1973876352534487507342732723472343035713847827443673414192696246175738990878int, 1850526430632738935288379929160135609874316287158722562263665130473600475117int, 15903273653230022804522879826818523221828602406053620214758893010884706790531int);
        square_p(173548808391669int, 15903273653230022804522879826818523221828602406053620214758893010884706790531int, 11554792879921464037571689325855731782631569866938519325911827651190745523501int, 3850284251730093851791675675211533197817978351132253318722795471932956852878int);
        square_p(347097616783338int, 3850284251730093851791675675211533197817978351132253318722795471932956852878int, 677290036752732995294574402146561265706280722812869556942536901065701776001int, 16727147622363527911121221398673634113106784052997362773690209404727367266301int);
        square_p(694195233566676int, 16727147622363527911121221398673634113106784052997362773690209404727367266301int, 12783002693209350560933676849164065705166384565282207595337440753693032577964int, 1291228391401314109178917290164482770500952048035016427057395774975776757589int);
        square_p(1388390467133352int, 1291228391401314109178917290164482770500952048035016427057395774975776757589int, 76171978195010040657450954022198031595497735187743186442926197317276166015int, 21656305680770361421798476594608898787779291669201607871720519490293143186176int);
        times_p(2776780934266704int, 21656305680770361421798476594608898787779291669201607871720519490293143186176int, 20302976931999738977773237868125410999569228460172420719455684475101312380136int, 849681475122350682398115806971274668069016172048965421435342460093831249576int);
        square_p(2776780934266705int, 849681475122350682398115806971274668069016172048965421435342460093831249576int, 32983854089765381702750112081150083665697814665664491387319612268850459384int, 8346323319556107748934268901371877540488759878517159301432007640857446486904int);
    }
    assert(primes::power_is(20520420087326380218354900027015874311863624918437260220194913954166250002289int, 21888242871839275222246405745257275088696311157297823662689037894645226208583int, 355427959586138251int, 20120304684843499813890888757544942849337821195206379774829473608244557412259int)) by {
        square_p(5553561868533410int, 8346323319556107748934268901371877540488759878517159301432007640857446486904int, 3182581322879502704319461452935494540426496531127194630299055963510714370673int, 7298832758859418135855407033023320791163834118175059700376860874818767418857int);
        square_p(11107123737066820int, 7298832758859418135855407033023320791163834118175059700376860874818767418857int, 2433861866104323029454944885587996571420341828786385559948572827279626042861int, 5904313416164430192315089874638129339546724130079856146739087886483595110486int);
        square_p(22214247474133640int, 5904313416164430192315089874638129339546724130079856146739087886483595110486int, 1592677727509604847314900013954799997281953773149953433056867908160791902377int, 17822968471033755948049826533005138076529540018050175352196898134406971654405int);
        times_p(44428494948267280int, 17822968471033755948049826533005138076529540018050175352196898134406971654405int, 16709189603306564056393206128225529765630063901596020018046100875316653125876int, 9796288673064575735228985517450767208488231590628817068821283458462436339337int);
        square_p(44428494948267281int, 9796288673064575735228985517450767208488231590628817068821283458462436339337int, 4384421002997996663833707556679490580748641463215037186124302118046052694596int, 21696273405398604721421358698169125624587480285030977763808837484197120682101int);
        square_p(88856989896534562int, 21696273405398604721421358698169125624587480285030977763808837484197120682101int, 21505987595168315945517948898248131345487949195524684993633379211208953633905int, 2857322612423921217600280813552211572615666812319861352537386022800150967586int);
        times_p(177713979793069124int, 2857322612423921217600280813552211572615666812319861352537386022800150967586int, 2678765064663627614501543220170773684886367454307520077391103778866803117184int, 15291295189807566785089464087420172321650091968891504580904813636159889214082int);
        square_p(177713979793069125int, 15291295189807566785089464087420172321650091968891504580904813636159889214082int, 10682616688371192115214523616028420625612141415223203328722661353644718784107int, 2545416906585525853345382367954747479281527513979164864029804955158299712343int);
        times_p(355427959586138250int, 2545416906585525853345382367954747479281527513979164864029804955158299712343int, 2386350723827135845020757122342868980068125409588939410835479923344438874396int, 20120304684843499813890888757544942849337821195206379774829473608244557412259int);
    }
    assert(primes::power_is(20520420087326380218354900027015874311863624918437260220194913954166250002289int, 21888242871839275222246405745257275088696311157297823662689037894645226208583int, 22747389413512848104int, 8949607760509372549659039848424864265732705533020123272628999185273159329858int)) by {
        square_p(355427959586138251int, 20120304684843499813890888757544942849337821195206379774829473608244557412259int, 18495164869162363597908255687173546117068407246763522236393366997830568061825int, 1382117589519464765631795099151241630921097561173663737586235532342993839106int);
        times_p(710855919172276502int, 1382117589519464765631795099151241630921097561173663737586235532342993839106int, 1295747388819023334798808239414364408735133612246713365803921160540456062505int, 4038254741314365686355620637497639552377575547043374656564847542687382233219int);
        square_p(710855919172276503int, 4038254741314365686355620637497639552377575547043374656564847542687382233219int, 745034740852984266489079209528652416605513233664805342817726045022700935021int, 16368252934778834616170063306147345933224293420573662060670561697250831616718int);
        square_p(1421711838344553006int, 16368252934778834616170063306147345933224293420573662060670561697250831616718int, 12240347738538345450654531373809669101196247704561648173666111913396571214897int, 5677729956150525752730649940457857001596204506423553578780203219220218230573int);
        times_p(2843423676689106012int, 5677729956150525752730649940457857001596204506423553578780203219220218230573int, 5322921740442825163500216020777836637336675798717771679715164968731312993566int, 13215086942735791946702418599616789950329864663749547370676544795766726804619int);
        square_p(2843423676689106013int, 13215086942735791946702418599616789950329864663749547370676544795766726804619int, 7978645153318837242997818644362297053620749598870608895034982027964787740331int, 6899872006345954595497336446241437183188023436546257417847232695131152274188int);
        square_p(5686847353378212026int, 6899872006345954595497336446241437183188023436546257417847232695131152274188int, 2175059641960013375317264288928714209949038776174526500276569040368180091903int, 14446856324681129901751380054355218236751294081770972488788184968371143655895int);
        square_p(11373694706756424052int, 14446856324681129901751380054355218236751294081770972488788184968371143655895int, 9535331770943615501440808578201244279339607112751828398777838249236737048249int, 8949607760509372549659039848424864265732705533020123272628999185273159329858int);
    }
    assert(primes::power_is(20520420087326380218354900027015874311863624918437260220194913954166250002289int, 21888242871839275222246405745257275088696311157297823662689037894645226208583int, 1455832922464822278661int, 12484388669719701541848954363185690141013584749184428671755345009796074269103int)) by {
        square_p(22747389413512848104int, 8949607760509372549659039848424864265732705533020123272628999185273159329858int, 3659292321267958452121918862028843841402966501978301948402503536154524839757int, 4246751335182358788630681355529698815060052215470092989187073214166917265833int);
        square_p(45494778827025696208int, 4246751335182358788630681355529698815060052215470092989187073214166917265833int, 823953617861042566618496833581890983308040934151629774983674737356257637383int, 4593216947487749133841472679606492895115095407184466249750344436794052925600int);
        square_p(90989557654051392416int, 4593216947487749133841472679606492895115095407184466249750344436794052925600int, 963880109071351654930592705854705844042450112492046285691606478143951959669int, 5163948225099685664563091551955346214870074962694169772719696938597337720973int);
        square_p(181979115308102784832int, 5163948225099685664563091551955346214870074962694169772719696938597337720973int, 1218296115757117053000603741203788498437853104064499575688101749993856945228int, 15770693719840909160020286716180508384055389918169935235107184102872869574805int);
        times_p(363958230616205569664int, 15770693719840909160020286716180508384055389918169935235107184102872869574805int, 14785163984819280263102475327028275371875702510387846363389832663620802224826int, 9250494019229908783585216485898775406174733021144837959016538479958569847087int);
        square_p(363958230616205569665int, 9250494019229908783585216485898775406174733021144837959016538479958569847087int, 3909479627983390655988601633494928893704392045402078763544697977998111256875int, 10922969529809421637072185359536985985117237399888240696628573231925519627444int);
        square_p(727916461232411139330int, 10922969529809421637072185359536985985117237399888240696628573231925519627444int, 5450929252189867467675342252833644798321782417832353754808804404235223540473int, 12057330549084462844934871835123672077512568938785558172704207329216917493377int);
        times_p(1455832922464822278660int, 12057330549084462844934871835123672077512568938785558172704207329216917493377int, 11303853372227129695438648374890368636995761288218205234035784675120239499950int, 12484388669719701541848954363185690141013584749184428671755345009796074269103int);
    }
    assert(primes::power_is(20520420087326380218354900027015874311863624918437260220194913954166250002289int, 21888242871839275222246405745257275088696311157297823662689037894645226208583int, 93173307037748625834321int, 11368018194082554332770220592398033492385876191650138293630313637182739697718int)) by {
        square_p(1455832922464822278661int, 12484388669719701541848954363185690141013584749184428671755345009796074269103int, 7120715964694917635992131446528931594481228767561731927987953351956133273917int, 20148282329444206578259426400965662306735649787966037302665286121358744994998int);
        square_p(2911665844929644557322int, 20148282329444206578259426400965662306735649787966037302665286121358744994998int, 18546636347373520104485140633419213514635367982889900528611420966712544562282int, 4039532234352066011343919188609578861161048272282814937436725298466878553598int);
        times_p(5823331689859289114644int, 4039532234352066011343919188609578861161048272282814937436725298466878553598int, 3787096976699209870762188009325060500417415445656008241337511840812206734561int, 19127812316295780085492745018611446008069927513042102983712225037979408248759int);
        square_p(5823331689859289114645int, 19127812316295780085492745018611446008069927513042102983712225037979408248759int, 16715512805194495141792168073427551564795367097859177724047493203348792188884int, 13683399295203194927904994699505351605944093643560263471724282641182307048709int);
        square_p(11646663379718578229290int, 13683399295203194927904994699505351605944093643560263471724282641182307048709int, 8554154729014748311369961734273684593733185496451035845171623277413825792977int, 2015666968720036938275823611024389700998976289779553459912876601582520045090int);
        square_p(23293326759437156458580int, 2015666968720036938275823611024389700998976289779553459912876601582520045090int, 185620808055645200174682363459428113350878400289229466007211219902767515352int, 107334060117361786981804554890369541885147552275724182705778584189426441884int);
        square_p(46586653518874312917160int, 107334060117361786981804554890369541885147552275724182705778584189426441884int, 526337382526921626704996982628151946256812218816037210893624670674892188int, 9091994476024159566284543784897538152851904928969022502495636654556904219852int);
        times_p(93173307037748625834320int, 9091994476024159566284543784897538152851904928969022502495636654556904219852int, 8523824738791789153919151067235307523631218332366883300404615633021592846970int, 11368018194082554332770220592398033492385876191650138293630313637182739697718int);
    }
    assert(primes::power_is(20520420087326380218354900027015874311863624918437260220194913954166250002289int, 21888242871839275222246405745257275088696311157297823662689037894645226208583int, 5963091650415912053396581int, 10481837127168144588889071808627162948252677827252950675249604900027397723942int)) by {
        square_p(93173307037748625834321int, 11368018194082554332770220592398033492385876191650138293630313637182739697718int, 5904166835943583084908341912148361507357367200126943805053730559753699829399int, 18210214614520313703441358023954979474260962512533474802051840918295324875907int);
        times_p(186346614075497251668642int, 18210214614520313703441358023954979474260962512533474802051840918295324875907int, 17072236266671437927908503627433000330329010614370675342194650592396890526348int, 18907775863177548874009473924513750180371947752207374464796297089506085706239int);
        square_p(186346614075497251668643int, 18907775863177548874009473924513750180371947752207374464796297089506085706239int, 16333151554714923648973898793674199649181026852841238574525999203311337946822int, 20411170678493604703383904401444219160796927888021852696604383368452669551895int);
        square_p(372693228150994503337286int, 20411170678493604703383904401444219160796927888021852696604383368452669551895int, 19033774931408586328590657012650909417139505508439406342777376478276651495023int, 11949131436653225855366125994112114151332975659256597940963380464311113708616int);
        square_p(745386456301989006674572int, 11949131436653225855366125994112114151332975659256597940963380464311113708616int, 6523216273066527575602857276549263082816687190248130035343760683545133275724int, 2345874788107895329620782563891590982617900115011775652364391223973678296364int);
        times_p(1490772912603978013349144int, 2345874788107895329620782563891590982617900115011775652364391223973678296364int, 2199278233803547575884468412030535620987976982722701269354967935154639982645int, 8647263176884852814287497874586232965645284830032127240734686269890350335161int);
        square_p(1490772912603978013349145int, 8647263176884852814287497874586232965645284830032127240734686269890350335161int, 3416224906134977451830711586968265498220480881415308306556391818366557112989int, 15981026427606811492776500334372159072648615811930712025477492636282220311334int);
        square_p(2981545825207956026698290int, 15981026427606811492776500334372159072648615811930712025477492636282220311334int, 11668054268917501472572933044014163507726741308885896217484100109252847590925int, 5560046374451599621040912717222705204939870751139726080106537038576780950281int);
        times_p(5963091650415912053396580int, 5560046374451599621040912717222705204939870751139726080106537038576780950281int, 5212592348175796062563310966875455804880926791856826954637046511084994428949int, 10481837127168144588889071808627162948252677827252950675249604900027397723942int);
    }
    assert(primes::power_is(20520420087326380218354900027015874311863624918437260220194913954166250002289int, 21888242871839275222246405745257275088696311157297823662689037894645226208583int, 381637865626618371417381205int, 8695946019116259567441368930954898212049914955059760954339818945360911607490int)) by {
        square_p(5963091650415912053396581int, 10481837127168144588889071808627162948252677827252950675249604900027397723942int, 5019539951369711161215805878736585252958966730779872718478754469270962675922int, 7953667848095980991769401465827792634402959391547160412522651129545836180838int);
        square_p(11926183300831824106793162int, 7953667848095980991769401465827792634402959391547160412522651129545836180838int, 2890174081503141114608465737613288490163315514887643572009804580085615124403int, 17335844277909099598844019890915529275557215155200644827413908977904267031295int);
        times_p(23852366601663648213586324int, 17335844277909099598844019890915529275557215155200644827413908977904267031295int, 16252506390490135405993103841417790112661898686886457734333296728498434173960int, 7260023362438087191715981628539731259816080656743860541381985849250717535575int);
        square_p(23852366601663648213586325int, 7260023362438087191715981628539731259816080656743860541381985849250717535575int, 2408047988674285325925982512805957437989486813744520086676161955352436226351int, 6133558309398666728462459848480611071766606631577479070146944340045663609992int);
        square_p(47704733203327296427172650int, 6133558309398666728462459848480611071766606631577479070146944340045663609992int, 1718755486910044796608690407539220283690013760082362903772320571101997132533int, 11422654638078695198678815849527830950478950818125723354292766331896129109325int);
        times_p(95409466406654592854345300int, 11422654638078695198678815849527830950478950818125723354292766331896129109325int, 10708839126935610345385959449386548882647503017350290631154147377007835821937int, 15247074232914832407422242711288603663244774465860451104897924036978772159654int);
        square_p(95409466406654592854345301int, 15247074232914832407422242711288603663244774465860451104897924036978772159654int, 10620919825552019306693935448814117507408878477314990827142712678069108956337int, 17288688520007075413755413218794614503392548348914612678665168173304663759245int);
        square_p(190818932813309185708690602int, 17288688520007075413755413218794614503392548348914612678665168173304663759245int, 13655675902901194979197592046431184905954620242036505923267751941573351840995int, 6107383195348991824522796581973857713698835165137087604108616285008402709940int);
        times_p(381637865626618371417381204int, 6107383195348991824522796581973857713698835165137087604108616285008402709940int, 5725725428790796351459267976252958661421855653836454929406564034205282156990int, 8695946019116259567441368930954898212049914955059760954339818945360911607490int);
    }
    assert(primes::power_is(20520420087326380218354900027015874311863624918437260220194913954166250002289int, 21888242871839275222246405745257275088696311157297823662689037894645226208583int, 48849646800207151541424794243int, 54059787083616520671972141422520722909762933236477716301500500108909108499int)) by {
        square_p(381637865626618371417381205int, 8695946019116259567441368930954898212049914955059760954339818945360911607490int, 3454798889529573106887873420343300320665263365484166065471591711953653735680int, 19565517766554588294175964097494878682316767296372595445066886914194994758660int);
        square_p(763275731253236742834762410int, 19565517766554588294175964097494878682316767296372595445066886914194994758660int, 17489274388757531908865743796447719013074622347467783732695172089998522809263int, 7569902485346355341735268260764842981292069380604974333899167971460082491271int);
        square_p(1526551462506473485669524820int, 7569902485346355341735268260764842981292069380604974333899167971460082491271int, 2618000173571616838433891175299141640088154947299929106806198910807971297448int, 21779638022708406976437352516123516110047475312620436870827465117869407599257int);
        square_p(3053102925012946971339049640int, 21779638022708406976437352516123516110047475312620436870827465117869407599257int, 21671572047955157856291648727172512520279883525453656153511330613336939409340int, 3882777604881055056374614938908648432605819834455302343583890834176648586829int);
        square_p(6106205850025893942678099280int, 3882777604881055056374614938908648432605819834455302343583890834176648586829int, 688769857737741063596562408189700140638438447326989646988709736969541764564int, 2613208471943464836993411084203446290771362904669738542042164884181410222429int);
        square_p(12212411700051787885356198560int, 2613208471943464836993411084203446290771362904669738542042164884181410222429int, 311987515755451206885961714427397115587633588949679624329465508361341280871int, 7575902487842484714878458451415214700806514383681504639700389774819020744248int);
        times_p(24424823400103575770712397120int, 7575902487842484714878458451415214700806514383681504639700389774819020744248int, 7102475173608369904749770043673829852113953090559332351698164920210305674868int, 17057530288256137839195685410759950323045266541766843578011140293399734591628int);
        square_p(24424823400103575770712397121int, 17057530288256137839195685410759950323045266541766843578011140293399734591628int, 13292950980049415244627683364637424374143748470972165549609460785696984374772int, 8544300846114438340373902749370062886147628614667230163643164353273612622308int);
        times_p(48849646800207151541424794242int, 8544300846114438340373902749370062886147628614667230163643164353273612622308int, 8010357146591422839749691643429541583475046176961193565006916367017735844711int, 54059787083616520671972141422520722909762933236477716301500500108909108499int);
    }
    assert(primes::power_is(20520420087326380218354900027015874311863624918437260220194913954166250002289int, 21888242871839275222246405745257275088696311157297823662689037894645226208583int, 1563188697606628849325593415802int, 1428672553184627876160966987416304924430824137504591477538561321856476834518int)) by {
        square_p(48849646800207151541424794243int, 54059787083616520671972141422520722909762933236477716301500500108909108499int, 133517368051772554852429096783763136864217058726685332089306973155506767int, 1137763650281504485702057257023477738113755291814550438385112825107544051840int);
        times_p(97699293600414303082849588486int, 1137763650281504485702057257023477738113755291814550438385112825107544051840int, 1066663422942203665218290409288589960220476504786800792474279466703887066446int, 1918465491087974783299773739850442850948020949349000835061686094005558155742int);
        square_p(97699293600414303082849588487int, 1918465491087974783299773739850442850948020949349000835061686094005558155742int, 168150082308829478584639528919322886666491355271736020360296063193601039556int, 10299302206045854172274311656605044529433208923207375849501088067807037861416int);
        times_p(195398587200828606165699176974int, 10299302206045854172274311656605044529433208923207375849501088067807037861416int, 9655686347774374026281927638470838173248469585487151318243607650422770423868int, 9474572758605589961811425022524668433179847880031430715616158899342175122180int);
        square_p(195398587200828606165699176975int, 9474572758605589961811425022524668433179847880031430715616158899342175122180int, 4101175662373667187651981581651254160756762745515951661644363202455674075416int, 13672745299612246570563406507345550804586698617318292511409941178668239456872int);
        square_p(390797174401657212331398353950int, 13672745299612246570563406507345550804586698617318292511409941178668239456872int, 8540839258896610928106735260749794291712858101437881347228361479897290467780int, 14811552227626340607576951984066505283279821374578812155981966052229627068644int);
        times_p(781594348803314424662796707900int, 14811552227626340607576951984066505283279821374578812155981966052229627068644int, 13885960405131746003602347562748184940109860229408243622811386945293098825199int, 6073434967081849288898438630855873175792645894686934782525968527399129643099int);
        square_p(781594348803314424662796707901int, 6073434967081849288898438630855873175792645894686934782525968527399129643099int, 1685224918023440742267936951875119150722068153273506057705919428738766332901int, 1428672553184627876160966987416304924430824137504591477538561321856476834518int);
    }
    assert(primes::power_is(20520420087326380218354900027015874311863624918437260220194913954166250002289int, 21888242871839275222246405745257275088696311157297823662689037894645226208583int, 50022038323412123178418989305689int, 1079254303472227163265414510288167257195767723415227202943436943114825595830int)) by {
        square_p(1563188697606628849325593415802int, 1428672553184627876160966987416304924430824137504591477538561321856476834518int, 93251216014653473933867272712523088248610329518626801648453679697649504745int, 10144766210023148268479913947337357710653596443019448847730245868549538065989int);
        times_p(3126377395213257698651186831604int, 10144766210023148268479913947337357710653596443019448847730245868549538065989int, 9510807493150587967163484469724788048859317779295491328911814166230918731724int, 8096418777666527880935114263249260365071795399073675482621453291492439861729int);
        square_p(3126377395213257698651186831605int, 8096418777666527880935114263249260365071795399073675482621453291492439861729int, 2994849673734582452181355406382343169415165509809169252616725928817621769959int, 21447926134129346820400931460237311191729001480953476359715956642109261511344int);
        times_p(6252754790426515397302373663210int, 21447926134129346820400931460237311191729001480953476359715956642109261511344int, 20107619275393065740999202706174162895508846328415833558169986901956445599159int, 13722739928959987836364537436472330413370560887603887816351304134782256084719int);
        square_p(6252754790426515397302373663211int, 13722739928959987836364537436472330413370560887603887816351304134782256084719int, 8603412903470251371062279865971035188840889995792712998547915207045779290281int, 20122935192382353966434400865815234428854954750266650549649910977269094627138int);
        square_p(12505509580853030794604747326422int, 20122935192382353966434400865815234428854954750266650549649910977269094627138int, 18500001262220718912597828774489444619388264172971051496616756600861358920526int, 13776677481308463908895097045831037083453361759058294504166845442402649996386int);
        square_p(25011019161706061589209494652844int, 13776677481308463908895097045831037083453361759058294504166845442402649996386int, 8671177651641391839759268920993010087502380363977451159063881816640826785971int, 20401158758106802172600581777577219811488257225873113614966515541147868871903int);
        times_p(50022038323412123178418989305688int, 20401158758106802172600581777577219811488257225873113614966515541147868871903int, 19126265659414755275084729830065677893252764179751225139495310987983687683839int, 1079254303472227163265414510288167257195767723415227202943436943114825595830int);
    }
    assert(primes::power_is(20520420087326380218354900027015874311863624918437260220194913954166250002289int, 21888242871839275222246405745257275088696311157297823662689037894645226208583int, 1600705226349187941709407657782070int, 14680234674149577664931610068022929759970855772643695611829521039985119608589int)) by {
        square_p(50022038323412123178418989305689int, 1079254303472227163265414510288167257195767723415227202943436943114825595830int, 53215320132522112559814836234283067823282020628744430759498730406177162710int, 19130489207334816229969015520247573663506875492358152811028929799340923848970int);
        times_p(100044076646824246356837978611378int, 19130489207334816229969015520247573663506875492358152811028929799340923848970int, 17935001786536119495631075654644037769318467546105025737688882380970293688198int, 18277663234776867181645399030253632870153220714484750343755467762626076888896int);
        square_p(100044076646824246356837978611379int, 18277663234776867181645399030253632870153220714484750343755467762626076888896int, 15262667509675788151924604910758561268356434310987674712855252453398067676414int, 8647776161052848252002917069635030798745848670584284759219678486644614637454int);
        square_p(200088153293648492713675957222758int, 8647776161052848252002917069635030798745848670584284759219678486644614637454int, 3416630241611980719111548291052145103851931104319690712841552389683821458651int, 15953377387054022765887427791658645126705069386852156287646657213870423800583int);
        times_p(400176306587296985427351914445516int, 15953377387054022765887427791658645126705069386852156287646657213870423800583int, 14956431528598659751191806750566807432062823831880598012581318370127986793389int, 4066938648678522204692739892400921406162263013290273088596668655243590076700int);
        square_p(400176306587296985427351914445517int, 4066938648678522204692739892400921406162263013290273088596668655243590076700int, 755656361680585840350306939258471452247215846012662140587008157158526905376int, 9564329764591677381766449058582072262419392822485445925901358677559402847792int);
        times_p(800352613174593970854703828891034int, 9564329764591677381766449058582072262419392822485445925901358677559402847792int, 8966643223593238630165603056282073885380013748700399932415113486684389788438int, 12403083661788082568904169908929453453080092617744797756996077650120888832534int);
        square_p(800352613174593970854703828891035int, 12403083661788082568904169908929453453080092617744797756996077650120888832534int, 7028270164127046157053033086865275620635277549119812653173110337954298904049int, 14680234674149577664931610068022929759970855772643695611829521039985119608589int);
    }
    assert(primes::power_is(20520420087326380218354900027015874311863624918437260220194913954166250002289int, 21888242871839275222246405745257275088696311157297823662689037894645226208583int, 51222567243174014134701045049026265int, 16467638379102029857789326227617470229452199244515477831675607253095172533001int)) by {
        square_p(1600705226349187941709407657782070int, 14680234674149577664931610068022929759970855772643695611829521039985119608589int, 9845892671694128103872225093346830921972162147108690209485619896730590966400int, 375770679505593900828891512261566764944211668939419949873882925282617959721int);
        times_p(3201410452698375883418815315564140int, 375770679505593900828891512261566764944211668939419949873882925282617959721int, 352288315014795760943081401432589218156818234043364646364073299154932511570int, 1117684683779423284824501780122137472372793748327496307821222685975878996059int);
        square_p(3201410452698375883418815315564141int, 1117684683779423284824501780122137472372793748327496307821222685975878996059int, 57072605584174843100654519568595943636054719103765580814662554803417136881int, 14521343645316617400827221955496109273537023115498862063349349042784969481858int);
        times_p(6402820905396751766837630631128282int, 14521343645316617400827221955496109273537023115498862063349349042784969481858int, 13613887308318445796373270115465867295590550635568688509717348514360219246438int, 3030879932741806683175003273580718982176561982092025807736665953871576195608int);
        square_p(6402820905396751766837630631128283int, 3030879932741806683175003273580718982176561982092025807736665953871576195608int, 419688013354223935447004355898314198517871884088799918285900916321320437467int, 1849423197598879922674866944270010600921612305482472423177029465451328310403int);
        square_p(12805641810793503533675261262256566int, 1849423197598879922674866944270010600921612305482472423177029465451328310403int, 156264995040666383025236983757878171932804491399449968822042152458431457629int, 2694043037735802699111787392575206347518219541351108625492717318088837392702int);
        square_p(25611283621587007067350522524513132int, 2694043037735802699111787392575206347518219541351108625492717318088837392702int, 331587507122853437160336184056892400177988366665167313932671049409591473464int, 191701241836127061688219263199904967172029209930467259706496939988189319292int);
        times_p(51222567243174014134701045049026264int, 191701241836127061688219263199904967172029209930467259706496939988189319292int, 179721599251832338961716297542650636346864036778577625937486548978550337589int, 16467638379102029857789326227617470229452199244515477831675607253095172533001int);
    }
    assert(primes::power_is(20520420087326380218354900027015874311863624918437260220194913954166250002289int, 21888242871839275222246405745257275088696311157297823662689037894645226208583int, 1639122151781568452310433441568840501int, 18718038043601528930703351738764462885573123226295138105785116040214009913372int)) by {
        square_p(51222567243174014134701045049026265int, 16467638379102029857789326227617470229452199244515477831675607253095172533001int, 12389441919696980030106987417106485159537664283706006246556901580528593797427int, 746167031136767141357202001989294152850026284354018423865191871512883350060int);
        times_p(102445134486348028269402090098052530int, 746167031136767141357202001989294152850026284354018423865191871512883350060int, 699538150407637626109669288684771194050315576242991743495931434948164848386int, 18338225489892412437721552570711987887724438446817484280951940738691181390302int);
        square_p(102445134486348028269402090098052531int, 18338225489892412437721552570711987887724438446817484280951940738691181390302int, 15363979470037798579658459979905344018366134499033012780550712294351277644861int, 19259977976305846777062358141805383762677681370301353099012234962177075609241int);
        square_p(204890268972696056538804180196105062int, 19259977976305846777062358141805383762677681370301353099012234962177075609241int, 16947306086640453144223232824226598343026565172982692944698055051448357584206int, 6028182798697602634525289447046676836085939157119251917272070028400782155983int);
        times_p(409780537945392113077608360392210124int, 6028182798697602634525289447046676836085939157119251917272070028400782155983int, 5651474360768321710305338293459694466340423398197956337050269957150900356276int, 15845662873477744099404900776985347692185835688265165099319586794776715928179int);
        square_p(409780537945392113077608360392210125int, 15845662873477744099404900776985347692185835688265165099319586794776715928179int, 11471228337974495983648186100306632273564861582216511502524952715249748499143int, 9999588191586777626817026496644107810540411075753209359109414450632971511672int);
        square_p(819561075890784226155216720784420250int, 9999588191586777626817026496644107810540411075753209359109414450632971511672int, 4568286480865395551264295841621856160306412964883492514906413095687059175693int, 18300366490803714156047061790538513550382131171424318486151963456781170662565int);
        times_p(1639122151781568452310433441568840500int, 18300366490803714156047061790538513550382131171424318486151963456781170662565int, 17156754443111089301058063097859230659437927445104809505300604977937365664511int, 18718038043601528930703351738764462885573123226295138105785116040214009913372int);
    }
    assert(primes::power_is(20520420087326380218354900027015874311863624918437260220194913954166250002289int, 21888242871839275222246405745257275088696311157297823662689037894645226208583int, 104903817714020380947867740260405792084int, 13212588185681505715355059856830095067589669587745640311434340182484271901233int)) by {
        square_p(1639122151781568452310433441568840501int, 18718038043601528930703351738764462885573123226295138105785116040214009913372int, 16006992898113474160611250365742257709631458706215110925025541800392095925262int, 16128152718130344605286851125090617631713422334021703245649901895847353486638int);
        square_p(3278244303563136904620866883137681002int, 16128152718130344605286851125090617631713422334021703245649901895847353486638int, 11883882668078120241938128956579845405102002003977683314278682845564117760225int, 10668426037886631772557522096450924054174426762431232413906300928264613531869int);
        times_p(6556488607126273809241733766275362004int, 10668426037886631772557522096450924054174426762431232413906300928264613531869int, 10001743184678426699824874721294157629927942981102145951602175267503365002912int, 3169795145584202950061959191037081729163915550283732263568268145641110054445int);
        square_p(6556488607126273809241733766275362005int, 3169795145584202950061959191037081729163915550283732263568268145641110054445int, 459041016850928043757344223505840925311637389904675239839110644544864946562int, 10950802993883126762508630662232689794381631957840948805816789420492703516379int);
        square_p(13112977214252547618483467532550724010int, 10950802993883126762508630662232689794381631957840948805816789420492703516379int, 5478744315521327809963852810526287202476199693461451919913284635371489759795int, 12583380773670502607993119174042988515100582471671108746517952237294283951156int);
        times_p(26225954428505095236966935065101448020int, 12583380773670502607993119174042988515100582471671108746517952237294283951156int, 11797030081693659673634948062571002639905453841843137363312605358757386072636int, 8994672957683066172727160719071145926163228599479414559529008491806039561296int);
        square_p(26225954428505095236966935065101448021int, 8994672957683066172727160719071145926163228599479414559529008491806039561296int, 3696237385951330120328038913009976660879206132691367710895447337598683347774int, 3536474726870592746837496301682467019275971630298077527091074993252488455374int);
        square_p(52451908857010190473933870130202896042int, 3536474726870592746837496301682467019275971630298077527091074993252488455374int, 571386820176648375601120324894201389603744155232952989479521362015802004821int, 13212588185681505715355059856830095067589669587745640311434340182484271901233int);
    }
    assert(primes::power_is(20520420087326380218354900027015874311863624918437260220194913954166250002289int, 21888242871839275222246405745257275088696311157297823662689037894645226208583int, 13427688667394608761327070753331941386769int, 1int)) by {
        square_p(104903817714020380947867740260405792084int, 13212588185681505715355059856830095067589669587745640311434340182484271901233int, 7975628175663656077914145389512817919650687663466810797432486412924774450014int, 5268492040812475929011861354356358542375820697864984741804946246862235650127int);
        square_p(209807635428040761895735480520811584168int, 5268492040812475929011861354356358542375820697864984741804946246862235650127int, 1268124104188175900228147410610557532388015127599390454492538017530420036020int, 21255027283617507042572505379677870006756283953933128320881412245287461956469int);
        square_p(419615270856081523791470961041623168336int, 21255027283617507042572505379677870006756283953933128320881412245287461956469int, 20640130296094514229340867760989529319617262028296508058712044149234174122695int, 4434892893668397579633011895908828271105364298270138060367085695240146856776int);
        times_p(839230541712163047582941922083246336672int, 4434892893668397579633011895908828271105364298270138060367085695240146856776int, 4157751069980098114560835425361435139478456644670710280123052455280621371933int, 4204673850110849669371637989465644433594405089574660937165909421016675259325int);
        square_p(839230541712163047582941922083246336673int, 4204673850110849669371637989465644433594405089574660937165909421016675259325int, 807706780728004634186289179490024930730219207764371874200941797143508517788int, 13038646377868259199770482066988551400019844377625248307083906968838745681221int);
        square_p(1678461083424326095165883844166492673346int, 13038646377868259199770482066988551400019844377625248307083906968838745681221int, 7767014481816712324395367008780593448643405055076675212451459320561158913616int, 8927115276395136471738888244628663175246246945148376305761267113872457284713int);
        square_p(3356922166848652190331767688332985346692int, 8927115276395136471738888244628663175246246945148376305761267113872457284713int, 3640922097980666094516011571895792265579596148601278263011623489930139288459int, 9440706190465490338709687782652509219413205211107886418176482807290804848772int);
        square_p(6713844333697304380663535376665970693384int, 9440706190465490338709687782652509219413205211107886418176482807290804848772int, 4071909010538316902090147926377709276541058872909308670776918893023291830549int, 10714922605290891120183404489975313603902140222923225838745804136216824505917int);
        times_p(13427688667394608761327070753331941386768int, 10714922605290891120183404489975313603902140222923225838745804136216824505917int, 10045334125319058982299502594446416921053576633424456009920151963599505590964int, 1int);
    }
    primes::lemma_pocklington(21888242871839275222246405745257275088696311157297823662689037894645226208583int, 13427688667394608761327070753331941386769int, 20520420087326380218354900027015874311863624918437260220194913954166250002289int, 7760040696430108728351579495285625070970037227808537281002514205477518194167int, 7275106362711593634910217017553301347431408024134515045317937743039521961465int);
}

} // verus!
