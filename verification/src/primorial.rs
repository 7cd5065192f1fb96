//! The primes of the residue number system, and their product.
use vstd::prelude::*;

verus! {

/// The CRT primes. The first 80 have the primorial `2^552.2`, which caps the
/// smudging parameter `ρ` at 42. Two more lift it to `2^569.6` and the ceiling to
/// 60, which is what the 40-bit aggregate target needs; 83 would overflow a 576-bit
/// CRT integer.
pub const FIRST_82_PRIMES: [u64; 82] = [
    2, 3, 5, 7, 11, 13, 17, 19, 23, 29,
    31, 37, 41, 43, 47, 53, 59, 61, 67, 71,
    73, 79, 83, 89, 97, 101, 103, 107, 109, 113,
    127, 131, 137, 139, 149, 151, 157, 163, 167, 173,
    179, 181, 191, 193, 197, 199, 211, 223, 227, 229,
    233, 239, 241, 251, 257, 263, 269, 271, 277, 281,
    283, 293, 307, 311, 313, 317, 331, 337, 347, 349,
    353, 359, 367, 373, 379, 383, 389, 397, 401, 409,
    419, 421,
];

/// The product of the first `n` numbers.
pub open spec fn product(s: Seq<u64>, n: int) -> int
    decreases n,
{
    if n <= 0 {
        1
    } else {
        product(s, n - 1) * s[n - 1]
    }
}

/// The product of the 82 primes.
pub open spec fn primorial() -> int {
    product(FIRST_82_PRIMES@, 82)
}

proof fn lemma_product_step(n: int, x: int, q: u64, y: int)
    requires
        0 <= n < 82,
        product(FIRST_82_PRIMES@, n) == x,
        FIRST_82_PRIMES@[n] == q,
        x * q == y,
    ensures
        product(FIRST_82_PRIMES@, n + 1) == y,
{
}

/// The product of the 82 primes as a number.
#[verifier::rlimit(50)]
pub proof fn lemma_primorial()
    ensures
        primorial() == 2942626865402493898331284542303571951088352644057408163982241834590761494552755795081340947570555476723564832943786222982984870085996747879272304344859483158326560985889390int,
{
    lemma_product_step(0, 1int, 2, 2int);
    lemma_product_step(1, 2int, 3, 6int);
    lemma_product_step(2, 6int, 5, 30int);
    lemma_product_step(3, 30int, 7, 210int);
    lemma_product_step(4, 210int, 11, 2310int);
    lemma_product_step(5, 2310int, 13, 30030int);
    lemma_product_step(6, 30030int, 17, 510510int);
    lemma_product_step(7, 510510int, 19, 9699690int);
    lemma_product_step(8, 9699690int, 23, 223092870int);
    lemma_product_step(9, 223092870int, 29, 6469693230int);
    lemma_product_step(10, 6469693230int, 31, 200560490130int);
    lemma_product_step(11, 200560490130int, 37, 7420738134810int);
    lemma_product_step(12, 7420738134810int, 41, 304250263527210int);
    lemma_product_step(13, 304250263527210int, 43, 13082761331670030int);
    lemma_product_step(14, 13082761331670030int, 47, 614889782588491410int);
    lemma_product_step(15, 614889782588491410int, 53, 32589158477190044730int);
    lemma_product_step(16, 32589158477190044730int, 59, 1922760350154212639070int);
    lemma_product_step(17, 1922760350154212639070int, 61, 117288381359406970983270int);
    lemma_product_step(18, 117288381359406970983270int, 67, 7858321551080267055879090int);
    lemma_product_step(19, 7858321551080267055879090int, 71, 557940830126698960967415390int);
    lemma_product_step(20, 557940830126698960967415390int, 73, 40729680599249024150621323470int);
    lemma_product_step(21, 40729680599249024150621323470int, 79, 3217644767340672907899084554130int);
    lemma_product_step(22, 3217644767340672907899084554130int, 83, 267064515689275851355624017992790int);
    lemma_product_step(23, 267064515689275851355624017992790int, 89, 23768741896345550770650537601358310int);
    lemma_product_step(24, 23768741896345550770650537601358310int, 97, 2305567963945518424753102147331756070int);
    lemma_product_step(25, 2305567963945518424753102147331756070int, 101, 232862364358497360900063316880507363070int);
    lemma_product_step(26, 232862364358497360900063316880507363070int, 103, 23984823528925228172706521638692258396210int);
    lemma_product_step(27, 23984823528925228172706521638692258396210int, 107, 2566376117594999414479597815340071648394470int);
    lemma_product_step(28, 2566376117594999414479597815340071648394470int, 109, 279734996817854936178276161872067809674997230int);
    lemma_product_step(29, 279734996817854936178276161872067809674997230int, 113, 31610054640417607788145206291543662493274686990int);
    lemma_product_step(30, 31610054640417607788145206291543662493274686990int, 127, 4014476939333036189094441199026045136645885247730int);
    lemma_product_step(31, 4014476939333036189094441199026045136645885247730int, 131, 525896479052627740771371797072411912900610967452630int);
    lemma_product_step(32, 525896479052627740771371797072411912900610967452630int, 137, 72047817630210000485677936198920432067383702541010310int);
    lemma_product_step(33, 72047817630210000485677936198920432067383702541010310int, 139, 10014646650599190067509233131649940057366334653200433090int);
    lemma_product_step(34, 10014646650599190067509233131649940057366334653200433090int, 149, 1492182350939279320058875736615841068547583863326864530410int);
    lemma_product_step(35, 1492182350939279320058875736615841068547583863326864530410int, 151, 225319534991831177328890236228992001350685163362356544091910int);
    lemma_product_step(36, 225319534991831177328890236228992001350685163362356544091910int, 157, 35375166993717494840635767087951744212057570647889977422429870int);
    lemma_product_step(37, 35375166993717494840635767087951744212057570647889977422429870int, 163, 5766152219975951659023630035336134306565384015606066319856068810int);
    lemma_product_step(38, 5766152219975951659023630035336134306565384015606066319856068810int, 167, 962947420735983927056946215901134429196419130606213075415963491270int);
    lemma_product_step(39, 962947420735983927056946215901134429196419130606213075415963491270int, 173, 166589903787325219380851695350896256250980509594874862046961683989710int);
    lemma_product_step(40, 166589903787325219380851695350896256250980509594874862046961683989710int, 179, 29819592777931214269172453467810429868925511217482600306406141434158090int);
    lemma_product_step(41, 29819592777931214269172453467810429868925511217482600306406141434158090int, 181, 5397346292805549782720214077673687806275517530364350655459511599582614290int);
    lemma_product_step(42, 5397346292805549782720214077673687806275517530364350655459511599582614290int, 191, 1030893141925860008499560888835674370998623848299590975192766715520279329390int);
    lemma_product_step(43, 1030893141925860008499560888835674370998623848299590975192766715520279329390int, 193, 198962376391690981640415251545285153602734402721821058212203976095413910572270int);
    lemma_product_step(44, 198962376391690981640415251545285153602734402721821058212203976095413910572270int, 197, 39195588149163123383161804554421175259738677336198748467804183290796540382737190int);
    lemma_product_step(45, 39195588149163123383161804554421175259738677336198748467804183290796540382737190int, 199, 7799922041683461553249199106329813876687996789903550945093032474868511536164700810int);
    lemma_product_step(46, 7799922041683461553249199106329813876687996789903550945093032474868511536164700810int, 211, 1645783550795210387735581011435590727981167322669649249414629852197255934130751870910int);
    lemma_product_step(47, 1645783550795210387735581011435590727981167322669649249414629852197255934130751870910int, 223, 367009731827331916465034565550136732339800312955331782619462457039988073311157667212930int);
    lemma_product_step(48, 367009731827331916465034565550136732339800312955331782619462457039988073311157667212930int, 227, 83311209124804345037562846379881038241134671040860314654617977748077292641632790457335110int);
    lemma_product_step(49, 83311209124804345037562846379881038241134671040860314654617977748077292641632790457335110int, 229, 19078266889580195013601891820992757757219839668357012055907516904309700014933909014729740190int);
    lemma_product_step(50, 19078266889580195013601891820992757757219839668357012055907516904309700014933909014729740190int, 233, 4445236185272185438169240794291312557432222642727183809026451438704160103479600800432029464270int);
    lemma_product_step(51, 4445236185272185438169240794291312557432222642727183809026451438704160103479600800432029464270int, 239, 1062411448280052319722448549835623701226301211611796930357321893850294264731624591303255041960530int);
    lemma_product_step(52, 1062411448280052319722448549835623701226301211611796930357321893850294264731624591303255041960530int, 241, 256041159035492609053110100510385311995538591998443060216114576417920917800321526504084465112487730int);
    lemma_product_step(53, 256041159035492609053110100510385311995538591998443060216114576417920917800321526504084465112487730int, 251, 64266330917908644872330635228106713310880186591609208114244758680898150367880703152525200743234420230int);
    lemma_product_step(54, 64266330917908644872330635228106713310880186591609208114244758680898150367880703152525200743234420230int, 257, 16516447045902521732188973253623425320896207954043566485360902980990824644545340710198976591011245999110int);
    lemma_product_step(55, 16516447045902521732188973253623425320896207954043566485360902980990824644545340710198976591011245999110int, 263, 4343825573072363215565699965702960859395702691913457985649917484000586881515424606782330843435957697765930int);
    lemma_product_step(56, 4343825573072363215565699965702960859395702691913457985649917484000586881515424606782330843435957697765930int, 269, 1168489079156465704987173290774096471177444024124720198139827803196157871127649219224446996884272620699035170int);
    lemma_product_step(57, 1168489079156465704987173290774096471177444024124720198139827803196157871127649219224446996884272620699035170int, 271, 316660540451402206051523961799780143689087330537799173695893334666158783075592938409825136155637880209438531070int);
    lemma_product_step(58, 316660540451402206051523961799780143689087330537799173695893334666158783075592938409825136155637880209438531070int, 277, 87714969705038411076272137418539099801877190558970371113762453702525982911939243939521562715111692818014473106390int);
    lemma_product_step(59, 87714969705038411076272137418539099801877190558970371113762453702525982911939243939521562715111692818014473106390int, 281, 24647906487115793512432470614609487044327490547070674282967249490409801198254927547005559122946385681862066942895590int);
    lemma_product_step(60, 24647906487115793512432470614609487044327490547070674282967249490409801198254927547005559122946385681862066942895590int, 283, 6975357535853769564018389183934484833544679824821000822079731605785973739106144495802573231793827147966964944839451970int);
    lemma_product_step(61, 6975357535853769564018389183934484833544679824821000822079731605785973739106144495802573231793827147966964944839451970int, 293, 2043779758005154482257388030892804056228591188672553240869361360495290305558100337270153956915591354354320728837959427210int);
    lemma_product_step(62, 2043779758005154482257388030892804056228591188672553240869361360495290305558100337270153956915591354354320728837959427210int, 307, 627440385707582426053018125484090845262177494922473844946893937672054123806336803541937264773086545786776463753253544153470int);
    lemma_product_step(63, 627440385707582426053018125484090845262177494922473844946893937672054123806336803541937264773086545786776463753253544153470int, 311, 195133959955058134502488637025552252876537200920889365778484014616008832503770745901542489344429915739687480227261852231729170int);
    lemma_product_step(64, 195133959955058134502488637025552252876537200920889365778484014616008832503770745901542489344429915739687480227261852231729170int, 313, 61076929465933196099278943388997855150356143888238371488665496574810764573680243467182799164806563626522181311132959748531230210int);
    lemma_product_step(65, 61076929465933196099278943388997855150356143888238371488665496574810764573680243467182799164806563626522181311132959748531230210int, 317, 19361386640700823163471425054312320082662897612571563761906962414215012369856637179096947335243680669607531475629148240284399976570int);
    lemma_product_step(66, 19361386640700823163471425054312320082662897612571563761906962414215012369856637179096947335243680669607531475629148240284399976570int, 331, 6408618978071972467109041692977377947361419109761187605191204559105169094422546906281089567965658301640092918433248067534136392244670int);
    lemma_product_step(67, 6408618978071972467109041692977377947361419109761187605191204559105169094422546906281089567965658301640092918433248067534136392244670int, 337, 2159704595610254721415747050533376368260798239989520222949435936418441984820398307416727184404426847652711313512004598759003964186453790int);
    lemma_product_step(68, 2159704595610254721415747050533376368260798239989520222949435936418441984820398307416727184404426847652711313512004598759003964186453790int, 347, 749417494676758388331264226535081599786496989276363517363454269937199368732678212673604332988336116135490825788665595769374375572699465130int);
    lemma_product_step(69, 749417494676758388331264226535081599786496989276363517363454269937199368732678212673604332988336116135490825788665595769374375572699465130int, 349, 261546705642188677527611215060743478325487449257450867559845540208082579687704696223087912212929304531286298200244292923511657074872113330370int);
    lemma_product_step(70, 261546705642188677527611215060743478325487449257450867559845540208082579687704696223087912212929304531286298200244292923511657074872113330370int, 353, 92325987091692603167246758916442447848897069587880156248625475693453150629759757766750033011164044499544063264686235401999614947429856005620610int);
    lemma_product_step(71, 92325987091692603167246758916442447848897069587880156248625475693453150629759757766750033011164044499544063264686235401999614947429856005620610int, 359, 33145029365917644537041586451002838777754047982048976093256545773949681076083753038263261851007891975336318712022358509317861766127318306017798990int);
    lemma_product_step(72, 33145029365917644537041586451002838777754047982048976093256545773949681076083753038263261851007891975336318712022358509317861766127318306017798990int, 367, 12164225777291775545094262227518041831435735609411974226225152299039532954922737365042617099319896354948428967312205572919655268168725818308532229330int);
    lemma_product_step(73, 12164225777291775545094262227518041831435735609411974226225152299039532954922737365042617099319896354948428967312205572919655268168725818308532229330int, 373, 4537256214929832278320159810864229603125529382310666386381981807541745792186181037160896178046321340395764004807452678699031415026934730229082521540090int);
    lemma_product_step(74, 4537256214929832278320159810864229603125529382310666386381981807541745792186181037160896178046321340395764004807452678699031415026934730229082521540090int, 379, 1719620105458406433483340568317543019584575635895742560438771105058321655238562613083979651479555788009994557822024565226932906295208262756822275663694110int);
    lemma_product_step(75, 1719620105458406433483340568317543019584575635895742560438771105058321655238562613083979651479555788009994557822024565226932906295208262756822275663694110int, 383, 658614500390569664024119437665618976500892468548069400648049333237337193956369480811164206516669866807827915645835408481915303111064764635862931579194844130int);
    lemma_product_step(76, 658614500390569664024119437665618976500892468548069400648049333237337193956369480811164206516669866807827915645835408481915303111064764635862931579194844130int, 389, 256201040651931599305382461251925781858847170265198996852091190629324168449027728035542876334984578188245059186229973899465052910204193443350680384306794366570int);
    lemma_product_step(77, 256201040651931599305382461251925781858847170265198996852091190629324168449027728035542876334984578188245059186229973899465052910204193443350680384306794366570int, 397, 101711813138816844924236837117014535397962326595284001750280202679841694874264008030110521904988877540733288496933299638087626005351064797010220112569797363528290int);
    lemma_product_step(78, 101711813138816844924236837117014535397962326595284001750280202679841694874264008030110521904988877540733288496933299638087626005351064797010220112569797363528290int, 401, 40786437068665554814618971683922828694582892964708884701862361274616519644579867220074319283900539893834048687270253154873138028145776983601098265140488742774844290int);
    lemma_product_step(79, 40786437068665554814618971683922828694582892964708884701862361274616519644579867220074319283900539893834048687270253154873138028145776983601098265140488742774844290int, 409, 16681652761084211919179159418724436936084403222565933843061705761318156534633165693010396587115320816578125913093533540343113453511622786292849190442459895794911314610int);
    lemma_product_step(80, 16681652761084211919179159418724436936084403222565933843061705761318156534633165693010396587115320816578125913093533540343113453511622786292849190442459895794911314610int, 419, 6989612506894284794136067796445539076219364950255126280242854713992307588011296425371356170001319422146234757586190553403764537021369947456703810795390696338067840821590int);
    lemma_product_step(81, 6989612506894284794136067796445539076219364950255126280242854713992307588011296425371356170001319422146234757586190553403764537021369947456703810795390696338067840821590int, 421, 2942626865402493898331284542303571951088352644057408163982241834590761494552755795081340947570555476723564832943786222982984870085996747879272304344859483158326560985889390int);
}

/// The primes are positive and small.
pub proof fn lemma_primes_are_small()
    ensures
        forall|i: int| 0 <= i < 82 ==> 0 < #[trigger] FIRST_82_PRIMES@[i] <= 421,
{
    assert forall|i: int| 0 <= i < 82 implies 0 < #[trigger] FIRST_82_PRIMES@[i] <= 421 by {
        assert(i == 0 || i == 1 || i == 2 || i == 3 || i == 4 || i == 5 || i == 6 || i == 7 || i == 8 || i == 9 || i == 10 || i == 11 || i == 12 || i == 13 || i == 14 || i == 15 || i == 16 || i == 17 || i == 18 || i == 19 || i == 20 || i == 21 || i == 22 || i == 23 || i == 24 || i == 25 || i == 26 || i == 27 || i == 28 || i == 29 || i == 30 || i == 31 || i == 32 || i == 33 || i == 34 || i == 35 || i == 36 || i == 37 || i == 38 || i == 39 || i == 40 || i == 41 || i == 42 || i == 43 || i == 44 || i == 45 || i == 46 || i == 47 || i == 48 || i == 49 || i == 50 || i == 51 || i == 52 || i == 53 || i == 54 || i == 55 || i == 56 || i == 57 || i == 58 || i == 59 || i == 60 || i == 61 || i == 62 || i == 63 || i == 64 || i == 65 || i == 66 || i == 67 || i == 68 || i == 69 || i == 70 || i == 71 || i == 72 || i == 73 || i == 74 || i == 75 || i == 76 || i == 77 || i == 78 || i == 79 || i == 80 || i == 81);
    }
}

} // verus!
